use plantastic::voxel::{cell_colors, voxel_labels};

#[test]
fn voxel_cells_numbered_by_first_appearance() {
    let keys = vec![(0, 0, 0), (1, 0, 0), (0, 0, 0), (-1, 5, 2), (1, 0, 0)];
    let (labels, count) = voxel_labels(&keys);
    assert_eq!(labels, vec![0, 1, 0, 2, 1]);
    assert_eq!(count, 3);
    let (labels, count) = voxel_labels(&[]);
    assert!(labels.is_empty());
    assert_eq!(count, 0);
}

#[test]
fn extreme_cells_stay_apart() {
    let keys = vec![(i32::MIN, 0, 0), (i32::MAX, 0, 0), (0, i32::MIN, 0), (0, 0, i32::MAX), (i32::MIN, 0, 0)];
    let (labels, count) = voxel_labels(&keys);
    assert_eq!(labels, vec![0, 1, 2, 3, 0]);
    assert_eq!(count, 4);
}

#[test]
fn cell_colour_is_integer_average() {
    let colors = vec![Some([100, 0, 255]), Some([201, 3, 0]), None, Some([7, 7, 7])];
    let labels = vec![0, 0, 1, 2];
    let r = cell_colors(&colors, &labels, 3);
    assert_eq!(r, vec![Some([150, 1, 127]), None, Some([7, 7, 7])]);
}
