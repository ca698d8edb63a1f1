use plantastic::cluster::{all_noise, clamp_min_samples, cluster_obstacles, hdbscan_shortcut, labels_to_clusters};

fn complete(group: &[usize]) -> Vec<Vec<usize>> {
    group.iter().map(|_| group.to_vec()).collect()
}

#[test]
fn two_dense_groups_and_a_loner() {
    let mut nb: Vec<Vec<usize>> = Vec::new();
    nb.extend(complete(&[0, 1, 2, 3]));
    nb.extend(complete(&[4, 5, 6]));
    nb.push(vec![7]);
    let r = cluster_obstacles(&nb, 3);
    assert_eq!(r.ids, vec![0, 1]);
    assert_eq!(r.clusters, vec![vec![0, 1, 2, 3], vec![4, 5, 6]]);
    assert_eq!(r.noise_indices, vec![7]);
}

#[test]
fn chain_of_cores_is_one_cluster() {
    // 0-1-2-3-4 in a line, each point with its two neighbours and itself.
    let nb = vec![vec![0, 1], vec![0, 1, 2], vec![1, 2, 3], vec![2, 3, 4], vec![3, 4]];
    let r = cluster_obstacles(&nb, 3);
    assert_eq!(r.clusters, vec![vec![0, 1, 2, 3, 4]]);
    assert!(r.noise_indices.is_empty());
}

#[test]
fn sparse_points_are_noise() {
    let nb = vec![vec![0], vec![1, 2], vec![1, 2]];
    let r = cluster_obstacles(&nb, 3);
    assert!(r.clusters.is_empty());
    assert_eq!(r.noise_indices, vec![0, 1, 2]);
}

#[test]
fn empty_input_has_no_clusters() {
    let r = cluster_obstacles(&Vec::new(), 5);
    assert!(r.clusters.is_empty());
    assert!(r.noise_indices.is_empty());
}

#[test]
fn labels_become_clusters() {
    let r = labels_to_clusters(&vec![2, -1, 0, 2, 0, -1, 5]);
    assert_eq!(r.ids, vec![0, 2, 5]);
    assert_eq!(r.clusters, vec![vec![2, 4], vec![0, 3], vec![6]]);
    assert_eq!(r.noise_indices, vec![1, 5]);
    let none = labels_to_clusters(&vec![-1, -1]);
    assert!(none.clusters.is_empty());
    assert_eq!(none.noise_indices, vec![0, 1]);
}

#[test]
fn hdbscan_shortcuts() {
    let empty = hdbscan_shortcut(0, 5).expect("empty input");
    assert!(empty.clusters.is_empty() && empty.noise_indices.is_empty());
    let few = hdbscan_shortcut(3, 5).expect("too few points");
    assert_eq!(few.noise_indices, vec![0, 1, 2]);
    assert!(hdbscan_shortcut(5, 5).is_none());
    assert_eq!(all_noise(2).noise_indices, vec![0, 1]);
}

#[test]
fn min_samples_clamped() {
    assert_eq!(clamp_min_samples(5, 100), 5);
    assert_eq!(clamp_min_samples(5, 3), 2);
    assert_eq!(clamp_min_samples(0, 100), 1);
    assert_eq!(clamp_min_samples(5, 1), 1);
}

#[test]
fn border_point_seen_first_joins_the_cluster_that_reaches_it() {
    // Point 0 is visited first and is not core; the cluster seeded at core
    // point 1 later reaches core point 2, a neighbour of 0, and takes 0 in.
    let nb = vec![vec![0, 2], vec![1, 2, 3], vec![0, 1, 2], vec![1, 3]];
    let r = cluster_obstacles(&nb, 3);
    assert_eq!(r.clusters, vec![vec![0, 1, 2, 3]]);
    assert!(r.noise_indices.is_empty());
}

#[test]
fn points_on_a_line_form_one_cluster() {
    // x = 0, 2, 1, 3, 4 with radius 1.5: point 2 (x = 1) is core and lists
    // point 0, so point 0 is reachable although it is visited first.
    let nb = vec![vec![0, 2], vec![1, 2, 3], vec![0, 1, 2], vec![1, 3, 4], vec![3, 4]];
    let r = cluster_obstacles(&nb, 3);
    assert_eq!(r.clusters, vec![vec![0, 1, 2, 3, 4]]);
    assert!(r.noise_indices.is_empty());
}

#[test]
fn border_point_between_clusters_joins_the_lower_numbered_one() {
    // Point 3 is a border point of both clusters; the cluster seeded first
    // (at point 0) takes it; point 3 has too few neighbours to be core.
    let nb = vec![
        vec![0, 1, 2, 3, 5],
        vec![0, 1, 2, 5],
        vec![0, 1, 2, 5],
        vec![0, 3, 4],
        vec![3, 4, 6, 7, 8],
        vec![0, 1, 2, 5],
        vec![4, 6, 7, 8],
        vec![4, 6, 7, 8],
        vec![4, 6, 7, 8],
    ];
    let r = cluster_obstacles(&nb, 4);
    assert_eq!(r.clusters, vec![vec![0, 1, 2, 3, 5], vec![4, 6, 7, 8]]);
    assert!(r.noise_indices.is_empty());
}
