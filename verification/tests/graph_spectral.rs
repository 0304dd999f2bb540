use lau_bridge_pattern_math::graph_spectral::assign_clusters;

#[test]
fn clusters_follow_the_rank_order() {
    // Six vertices ranked 2, 0, 1, 5, 3, 4 split into two clusters of three.
    let order = vec![2, 0, 1, 5, 3, 4];
    let clusters = assign_clusters(&order, 2);
    assert_eq!(clusters, vec![0, 0, 0, 1, 1, 1]);
}

#[test]
fn clusters_with_uneven_split() {
    // Seven vertices in three clusters: size ⌈7/3⌉ = 3, ranks 0..3, 3..6, 6.
    let order: Vec<usize> = (0..7).collect();
    let clusters = assign_clusters(&order, 3);
    assert_eq!(clusters, vec![0, 0, 0, 1, 1, 1, 2]);
}

#[test]
fn last_cluster_takes_the_overflow() {
    // Five vertices in four clusters: size 2, ranks 0-1, 2-3, 4.
    let order: Vec<usize> = vec![4, 3, 2, 1, 0];
    let clusters = assign_clusters(&order, 4);
    assert_eq!(clusters, vec![2, 1, 1, 0, 0]);
}

#[test]
fn at_most_one_cluster_puts_everything_in_zero() {
    let order: Vec<usize> = vec![1, 0, 2];
    assert_eq!(assign_clusters(&order, 1), vec![0, 0, 0]);
    assert_eq!(assign_clusters(&order, 0), vec![0, 0, 0]);
    assert_eq!(assign_clusters(&Vec::new(), 3), Vec::<usize>::new());
}

#[test]
fn more_clusters_than_vertices() {
    let order: Vec<usize> = vec![0, 1, 2];
    assert_eq!(assign_clusters(&order, 10), vec![0, 1, 2]);
}
