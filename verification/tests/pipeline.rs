use plantastic::pipeline::{EigenvalueExtractor, PipelineError};
use plantastic::report::{InputInfo, OutputInfo, StageTiming};
use plantastic::scan::{
    best_ransac_iteration, outliers_removed, ransac_sample, remove_outliers_marked, require_points,
    select_by_indices, split_ground, ScanError,
};

#[test]
fn eigenvalue_extractor_dim() {
    let ext = EigenvalueExtractor;
    assert_eq!(ext.feature_dim(), 6);
}

#[test]
fn too_few_points_is_an_error() {
    match require_points(2) {
        Err(ScanError::InsufficientPoints { found, needed }) => assert_eq!((found, needed), (2, 3)),
        other => panic!("unexpected {other:?}"),
    }
    assert!(require_points(3).is_ok());
    match ransac_sample(0) {
        Err(ScanError::InsufficientPoints { found, needed }) => assert_eq!((found, needed), (0, 3)),
        other => panic!("unexpected {other:?}"),
    }
}

#[test]
fn ransac_samples_are_distinct_and_in_range() {
    for _ in 0..50 {
        let s = ransac_sample(4).expect("enough points");
        assert!(s.iter().all(|&i| i < 4));
        assert!(s[0] != s[1] && s[0] != s[2] && s[1] != s[2]);
    }
    let mut s = ransac_sample(3).unwrap();
    s.sort();
    assert_eq!(s, [0, 1, 2]);
}

#[test]
fn outliers_removed_saturates() {
    assert_eq!(outliers_removed(100, 93), 7);
    assert_eq!(outliers_removed(5, 9), 0);
}

#[test]
fn selection_follows_indices() {
    let items = [10, 20, 30, 40];
    assert_eq!(select_by_indices(&items, &[3, 0, 0, 2]), vec![40, 10, 10, 30]);
    assert!(select_by_indices(&items, &[]).is_empty());
}

#[test]
fn ground_split_partitions_indices() {
    let (g, o) = split_ground(&[true, false, false, true, true]);
    assert_eq!(g, vec![0, 3, 4]);
    assert_eq!(o, vec![1, 2]);
}

#[test]
fn ransac_keeps_first_best() {
    assert_eq!(best_ransac_iteration(&[Some(3), None, Some(7), Some(7), Some(2)]).unwrap(), 2);
    assert!(matches!(best_ransac_iteration(&[None, Some(0), None]), Err(ScanError::NoGroundPlane)));
    assert!(matches!(best_ransac_iteration(&[]), Err(ScanError::NoGroundPlane)));
}

#[test]
fn outlier_removal_keeps_marked_points() {
    let pts = [1, 2, 3, 4, 5];
    assert_eq!(remove_outliers_marked(&pts, 3, &[true, false, true, true, false]), vec![1, 3, 4]);
    // Not more points than k: unchanged, whatever the marks.
    assert_eq!(remove_outliers_marked(&pts, 5, &[]), pts.to_vec());
    assert!(remove_outliers_marked::<i32>(&[], 0, &[]).is_empty());
}

#[test]
fn report_parts() {
    let input = InputInfo::for_ply(1234);
    assert_eq!(input.format, "ply");
    assert_eq!(input.filename, None);
    assert_eq!(input.file_size_bytes, None);
    assert_eq!(input.original_vertex_count, 1234);
    let out = OutputInfo::from_terrain(&[0u8; 12], &[1u8; 5], 7, 9);
    assert_eq!(out, OutputInfo { glb_size_bytes: 12, png_size_bytes: 5, triangle_count: 7, vertex_count: 9 });
    let t = StageTiming {
        parse_ms: 1,
        downsample_ms: 2,
        outlier_removal_ms: 3,
        ransac_ms: 4,
        total_processing_ms: 10,
        terrain_export_ms: None,
    };
    assert_eq!(t.terrain_export_ms, None);
}

#[test]
fn pipeline_error_wraps_scan_error() {
    let e = PipelineError::Scan(ScanError::NoGroundPlane);
    assert!(matches!(e, PipelineError::Scan(ScanError::NoGroundPlane)));
}
