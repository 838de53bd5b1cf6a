use simplicial_agent::collaborate::{analyze_groups, build_collaboration_complex, collaboration_holes};
use simplicial_agent::complex::SimplicialComplex;

/// The groups of the records whose strength reaches `threshold`.
fn groups_at(records: &[(Vec<usize>, f64)], threshold: f64) -> Vec<Vec<usize>> {
    records
        .iter()
        .filter(|(_, strength)| *strength >= threshold)
        .map(|(agents, _)| agents.clone())
        .collect()
}

fn collaboration_complex(num_agents: usize, records: &[(Vec<usize>, f64)], threshold: f64) -> SimplicialComplex {
    build_collaboration_complex(num_agents, &groups_at(records, threshold))
}

fn coverage(num_agents: usize, realized_pairs: usize) -> f64 {
    let possible = if num_agents >= 2 { num_agents * (num_agents - 1) / 2 } else { 0 };
    if possible > 0 {
        realized_pairs as f64 / possible as f64
    } else {
        1.0
    }
}

#[test]
fn basic_collaboration_complex() {
    let records = vec![(vec![0, 1], 0.9), (vec![1, 2], 0.8), (vec![0, 2], 0.7)];
    let complex = collaboration_complex(3, &records, 0.5);
    assert_eq!(complex.num_vertices(), 3);
    assert_eq!(complex.num_edges(), 3);
}

#[test]
fn threshold_filters_collaborations() {
    let records = vec![(vec![0, 1], 0.9), (vec![1, 2], 0.3), (vec![0, 2], 0.7)];
    let complex = collaboration_complex(3, &records, 0.5);
    assert_eq!(complex.num_edges(), 2);
}

#[test]
fn analyze_topology() {
    let records = vec![(vec![0, 1], 0.9), (vec![1, 2], 0.8), (vec![0, 2], 0.7)];
    let topo = analyze_groups(3, &groups_at(&records, 0.5));
    assert_eq!(topo.connected_components, 1);
    assert_eq!(topo.holes.len(), 0);
    assert!(coverage(3, topo.realized_pairs) > 0.99);
}

#[test]
fn holes_detected() {
    // 4 agents in a line: 0-1-2-3, missing 0-2, 0-3, 1-3
    let records = vec![(vec![0, 1], 0.9), (vec![1, 2], 0.8), (vec![2, 3], 0.7)];
    let topo = analyze_groups(4, &groups_at(&records, 0.5));
    assert_eq!(topo.connected_components, 1);
    assert_eq!(topo.holes.len(), 3);
    assert_eq!(topo.holes, vec![(0, 2), (0, 3), (1, 3)]);
}

#[test]
fn coverage_calculation() {
    let records = vec![(vec![0, 1], 0.9), (vec![1, 2], 0.8), (vec![2, 3], 0.7)];
    let topo = analyze_groups(4, &groups_at(&records, 0.5));
    assert!((coverage(4, topo.realized_pairs) - 0.5).abs() < 0.01);
}

#[test]
fn disconnected_components() {
    let records = vec![(vec![0, 1], 0.9), (vec![2, 3], 0.8)];
    let topo = analyze_groups(4, &groups_at(&records, 0.5));
    assert_eq!(topo.connected_components, 2);
}

#[test]
fn three_way_collaboration() {
    let records = vec![(vec![0, 1, 2], 0.9)];
    let complex = collaboration_complex(3, &records, 0.5);
    assert_eq!(complex.num_triangles(), 1);
}

#[test]
fn mixed_dimensionality() {
    let records = vec![
        (vec![0, 1], 0.9),
        (vec![1, 2], 0.8),
        (vec![0, 1, 2], 0.7),
        (vec![2, 3], 0.6),
    ];
    let topo = analyze_groups(4, &groups_at(&records, 0.5));
    assert_eq!(topo.connected_components, 1);
}

#[test]
fn isolated_agents_are_vertices() {
    let complex = build_collaboration_complex(5, &vec![vec![0, 1]]);
    assert_eq!(complex.num_vertices(), 5);
    assert_eq!(complex.num_edges(), 1);
    let topo = analyze_groups(5, &vec![vec![0, 1]]);
    assert_eq!(topo.connected_components, 4);
    assert!(topo.holes.is_empty());
}

#[test]
fn agents_beyond_the_count_join_through_groups() {
    let complex = build_collaboration_complex(2, &vec![vec![1, 7]]);
    assert_eq!(complex.num_vertices(), 3);
    assert!(complex.is_simplicial_complex());
}

#[test]
fn summary_invariants_of_a_triangle() {
    let topo = analyze_groups(3, &vec![vec![0, 1, 2]]);
    assert_eq!(topo.euler_characteristic, Some(1));
    assert_eq!(topo.betti_numbers[0], 1);
    assert_eq!(topo.realized_pairs, 3);
    assert!(topo.holes.is_empty());
}

#[test]
fn holes_of_a_square() {
    let complex = build_collaboration_complex(4, &vec![vec![0, 1], vec![1, 2], vec![2, 3], vec![3, 0]]);
    let components = complex.connected_components();
    let holes = collaboration_holes(&complex, &components);
    assert_eq!(holes, vec![(0, 2), (1, 3)]);
    let topo = analyze_groups(4, &vec![vec![0, 1], vec![1, 2], vec![2, 3], vec![3, 0]]);
    assert_eq!(topo.euler_characteristic, Some(0));
    assert_eq!(topo.holes, holes);
}

#[test]
fn six_agents_example() {
    let records = vec![
        (vec![0, 1], 0.95),
        (vec![1, 2], 0.85),
        (vec![0, 2], 0.80),
        (vec![0, 1, 2], 0.70),
        (vec![3, 4], 0.90),
        (vec![4, 5], 0.60),
        (vec![2, 3], 0.40),
    ];
    let topo = analyze_groups(6, &groups_at(&records, 0.5));
    assert_eq!(topo.connected_components, 2);
    assert_eq!(topo.holes, vec![(3, 5)]);
    // 6 vertices, 5 edges, 1 triangle
    assert_eq!(topo.euler_characteristic, Some(2));
    assert!((coverage(6, topo.realized_pairs) - 5.0 / 15.0).abs() < 1e-9);
    let strict = analyze_groups(6, &groups_at(&records, 0.8));
    assert_eq!(strict.connected_components, 3);
}
