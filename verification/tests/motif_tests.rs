use topo_sonata_rs::motif::{cluster_motifs, motivic_persistence, persistence_order, MotivicComplex};

/// Euclidean distance between two feature vectors (over their common length).
fn distance(a: &[f64], b: &[f64]) -> f64 {
    a.iter().zip(b.iter()).map(|(x, y)| (x - y).powi(2)).sum::<f64>().sqrt()
}

/// Which motifs lie within `epsilon` of each other.
fn proximity(features: &[Vec<f64>], epsilon: f64) -> Vec<Vec<bool>> {
    features
        .iter()
        .map(|a| features.iter().map(|b| distance(a, b) <= epsilon).collect())
        .collect()
}

/// Order key of a distance: compares like the value.
fn key(x: f64) -> i64 {
    let x = if x == 0.0 { 0.0 } else { x };
    let b = x.to_bits() as i64;
    if b < 0 { b ^ i64::MAX } else { b }
}

/// All pairs `i < j` in filtration order up to `max_epsilon`, with their distances.
fn sorted_pairs(features: &[Vec<f64>], max_epsilon: f64) -> (Vec<(usize, usize)>, Vec<f64>) {
    let n = features.len();
    let mut pairs: Vec<(usize, usize)> = Vec::new();
    let mut dists: Vec<f64> = Vec::new();
    for i in 0..n {
        for j in (i + 1)..n {
            pairs.push((i, j));
            dists.push(distance(&features[i], &features[j]));
        }
    }
    let keys: Vec<i64> = dists.iter().map(|d| key(*d)).collect();
    let order = persistence_order(&keys, key(max_epsilon));
    (order.iter().map(|&k| pairs[k]).collect(), order.iter().map(|&k| dists[k]).collect())
}

#[test]
fn test_rips_complex() {
    let motifs = vec![vec![0.0], vec![1.0], vec![2.0]];
    let complex = MotivicComplex::build(&proximity(&motifs, 1.5));
    assert_eq!(complex.edges.len(), 2); // (0,1) and (1,2)
    assert_eq!(complex.triangles.len(), 0);
}

#[test]
fn test_rips_complex_triangle() {
    let motifs = vec![vec![0.0], vec![1.0], vec![0.5]];
    let complex = MotivicComplex::build(&proximity(&motifs, 1.5));
    assert_eq!(complex.edges.len(), 3);
    assert_eq!(complex.triangles.len(), 1);
}

#[test]
fn test_num_components() {
    let motifs = vec![vec![0.0], vec![1.0], vec![10.0]];
    let complex = MotivicComplex::build(&proximity(&motifs, 2.0));
    assert_eq!(complex.num_components(), 2);
}

#[test]
fn test_euler_characteristic_motif() {
    let motifs = vec![vec![0.0], vec![1.0], vec![0.5]];
    let complex = MotivicComplex::build(&proximity(&motifs, 1.5));
    assert_eq!(complex.euler_characteristic(), 3 - 3 + 1);
}

#[test]
fn test_motivic_persistence() {
    let motifs = vec![vec![0.0], vec![1.0], vec![5.0]];
    let (pairs, _) = sorted_pairs(&motifs, 10.0);
    let diagram = motivic_persistence(motifs.len(), &pairs);
    // Should have at least one death (merge) and one essential class
    assert!(diagram.len() >= 2);
}

#[test]
fn test_cluster_motifs() {
    let motifs = vec![vec![0.0], vec![0.5], vec![10.0]];
    let clusters = cluster_motifs(&proximity(&motifs, 1.0));
    assert_eq!(clusters.len(), 2);
}

#[test]
fn test_empty_motifs() {
    let complex = MotivicComplex::build(&vec![]);
    assert_eq!(complex.edges.len(), 0);
    assert_eq!(complex.num_components(), 0);
}

#[test]
fn edges_and_triangles_in_order() {
    let motifs = vec![vec![0.0], vec![0.2], vec![0.4], vec![5.0], vec![5.1]];
    let complex = MotivicComplex::build(&proximity(&motifs, 0.5));
    assert_eq!(complex.motif_count, 5);
    assert_eq!(complex.edges, vec![(0, 1), (0, 2), (1, 2), (3, 4)]);
    assert_eq!(complex.triangles, vec![(0, 1, 2)]);
    assert_eq!(complex.num_components(), 2);
    assert_eq!(complex.euler_characteristic(), 5 - 4 + 1);
}

#[test]
fn clusters_are_sorted_components() {
    let motifs = vec![vec![9.0], vec![0.0], vec![9.2], vec![20.0], vec![0.3]];
    let clusters = cluster_motifs(&proximity(&motifs, 0.5));
    assert_eq!(clusters, vec![vec![0, 2], vec![1, 4], vec![3]]);
}

#[test]
fn chained_components_merge_transitively() {
    // 0-1 and 1-2 are close, 0-2 is not: still one component.
    let motifs = vec![vec![0.0], vec![1.0], vec![2.0], vec![7.0]];
    let close = proximity(&motifs, 1.2);
    let complex = MotivicComplex::build(&close);
    assert_eq!(complex.num_components(), 2);
    assert_eq!(cluster_motifs(&close), vec![vec![0, 1, 2], vec![3]]);
}

#[test]
fn persistence_deaths_and_essential_classes() {
    let motifs = vec![vec![0.0], vec![1.0], vec![5.0]];
    let (pairs, dists) = sorted_pairs(&motifs, 10.0);
    assert_eq!(pairs, vec![(0, 1), (1, 2), (0, 2)]);
    let diagram = motivic_persistence(motifs.len(), &pairs);
    assert_eq!(diagram.len(), 3);
    assert_eq!(diagram[0].death, Some(0));
    assert_eq!(diagram[1].death, Some(1));
    assert_eq!(diagram[2].death, None);
    assert!(diagram.iter().all(|p| p.dim == 0));
    assert!((dists[diagram[1].death.unwrap()] - 4.0).abs() < 1e-10);
}

#[test]
fn persistence_with_small_radius() {
    let motifs = vec![vec![0.0], vec![1.0], vec![5.0]];
    let (pairs, _) = sorted_pairs(&motifs, 2.0);
    let diagram = motivic_persistence(motifs.len(), &pairs);
    assert_eq!(diagram.len(), 3);
    assert_eq!(diagram[0].death, Some(0));
    assert_eq!(diagram[1].death, None);
    assert_eq!(diagram[2].death, None);
    assert!(motivic_persistence(0, &vec![]).is_empty());
}

#[test]
fn persistence_skips_pairs_inside_a_component() {
    let pairs = vec![(0, 1), (1, 2), (0, 2), (2, 3)];
    let diagram = motivic_persistence(4, &pairs);
    let deaths: Vec<Option<usize>> = diagram.iter().map(|p| p.death).collect();
    assert_eq!(deaths, vec![Some(0), Some(1), Some(3), None]);
}

#[test]
fn filtration_order_is_stable_and_cut() {
    let keys = vec![5, 1, 5, 9, 1, 3];
    assert_eq!(persistence_order(&keys, 5), vec![1, 4, 5, 0, 2]);
    assert_eq!(persistence_order(&keys, 0), Vec::<usize>::new());
    assert_eq!(persistence_order(&keys, i64::MAX), vec![1, 4, 5, 0, 2, 3]);
    assert_eq!(persistence_order(&vec![], 3), Vec::<usize>::new());
    assert_eq!(persistence_order(&vec![-2, -7], -2), vec![1, 0]);
}

#[test]
fn essential_classes_match_components() {
    let motifs = vec![vec![0.0], vec![0.3], vec![4.0], vec![4.2], vec![9.0]];
    let epsilon = 1.0;
    let (pairs, _) = sorted_pairs(&motifs, epsilon);
    let diagram = motivic_persistence(motifs.len(), &pairs);
    let essential = diagram.iter().filter(|p| p.death.is_none()).count();
    let complex = MotivicComplex::build(&proximity(&motifs, epsilon));
    assert_eq!(diagram.len(), motifs.len());
    assert_eq!(essential, 3);
    assert_eq!(essential, complex.num_components());
    assert_eq!(essential, cluster_motifs(&proximity(&motifs, epsilon)).len());
}

#[test]
fn no_motifs_means_no_components() {
    let complex = MotivicComplex { motif_count: 0, edges: vec![(5, 7)], triangles: vec![] };
    assert_eq!(complex.num_components(), 0);
}

#[test]
fn clusters_ordered_by_first_motif() {
    let motifs = vec![vec![9.0], vec![0.0], vec![9.2], vec![0.4], vec![20.0]];
    let clusters = cluster_motifs(&proximity(&motifs, 0.5));
    assert_eq!(clusters, vec![vec![0, 2], vec![1, 3], vec![4]]);
}
