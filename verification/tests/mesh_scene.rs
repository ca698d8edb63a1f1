use plantastic::extrude::{extrusion_topology, ring_corner_count, VertexSource};
use plantastic::mesh::{compact_vertices, indices_to_u32, needs_decimation, triangle_count, vertex_colors, MeshConfig};
use plantastic::scene::plan_scene;

#[test]
fn mesh_config_default_target() {
    assert_eq!(MeshConfig::default().target_triangles, 50_000);
}

#[test]
fn triangle_counts() {
    assert_eq!(triangle_count(&vec![0, 1, 2, 2, 1, 3]), 2);
    assert_eq!(triangle_count(&vec![]), 0);
}

#[test]
fn default_colour_for_missing() {
    assert_eq!(vertex_colors(&vec![Some([1, 2, 3]), None]), vec![[1, 2, 3], [0, 128, 0]]);
}

#[test]
fn index_conversion_and_decimation_switch() {
    assert_eq!(indices_to_u32(&vec![0, 5, 7]), vec![0u32, 5, 7]);
    assert!(!needs_decimation(9, 3));
    assert!(needs_decimation(12, 3));
}

#[test]
fn compaction_keeps_used_vertices_in_first_use_order() {
    let positions = vec!['a', 'b', 'c', 'd', 'e'];
    let colors = vec![10, 11, 12, 13, 14];
    let r = compact_vertices(&vec![4, 1, 3, 3, 1, 0], &positions, &colors);
    assert_eq!(r.positions, vec!['e', 'b', 'd', 'a']);
    assert_eq!(r.colors, vec![14, 11, 13, 10]);
    assert_eq!(r.indices, vec![0, 1, 2, 2, 1, 3]);
}

#[test]
fn ring_corners() {
    assert_eq!(ring_corner_count(3), None);
    assert_eq!(ring_corner_count(5), Some(4));
}

#[test]
fn square_extrusion_counts() {
    // A square: 4 corners, two top triangles.
    let t = extrusion_topology(4, &vec![0, 1, 2, 0, 2, 3]);
    assert_eq!(t.vertices.len(), 24);
    assert_eq!(t.indices.len(), 6 + 6 + 24);
    assert_eq!(t.vertices[5], VertexSource { corner: 1, top: false });
    // Bottom face reverses each triangle's winding.
    assert_eq!(&t.indices[6..12], &[6, 5, 4, 7, 6, 4]);
    // First wall quad starts at vertex 8.
    assert_eq!(&t.indices[12..18], &[8, 10, 9, 8, 11, 10]);
}

#[test]
fn triangle_extrusion_index_count() {
    let t = extrusion_topology(3, &vec![0, 1, 2]);
    assert_eq!(t.vertices.len(), 18);
    assert_eq!(t.indices.len(), 3 + 3 + 18);
}

#[test]
fn scene_plan_stops_at_missing_material() {
    let zones = vec![10u128, 20, 30];
    let materials = vec![100u128, 200];
    let assignments = vec![(20u128, 100u128), (99, 100), (30, 300), (10, 200)];
    let p = plan_scene(&zones, &assignments, &materials);
    assert_eq!(p.steps, vec![(1, 0)]);
    assert_eq!(p.missing_material, Some((30, 300)));
    let ok = plan_scene(&zones, &vec![(10, 200), (30, 100)], &materials);
    assert_eq!(ok.steps, vec![(0, 1), (2, 0)]);
    assert_eq!(ok.missing_material, None);
    let empty = plan_scene(&vec![], &assignments, &materials);
    assert!(empty.steps.is_empty());
    assert_eq!(empty.missing_material, Some((30, 300)));
    let nothing = plan_scene(&vec![], &vec![], &vec![]);
    assert!(nothing.steps.is_empty() && nothing.missing_material.is_none());
}

#[test]
fn scene_plan_reports_missing_material_of_unknown_zone() {
    let p = plan_scene(&vec![1u128], &vec![(2u128, 9u128)], &vec![]);
    assert!(p.steps.is_empty());
    assert_eq!(p.missing_material, Some((2, 9)));
}
