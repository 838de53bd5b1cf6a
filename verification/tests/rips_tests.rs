use simplicial_agent::complex::SimplicialComplex;
use simplicial_agent::rips::clique_complex;

/// Which pairs of points lie within `epsilon` of each other.
fn within(distances: &[Vec<f64>], epsilon: f64) -> Vec<Vec<bool>> {
    distances
        .iter()
        .map(|row| row.iter().map(|&d| d <= epsilon).collect())
        .collect()
}

fn rips_complex(distances: &[Vec<f64>], epsilon: f64) -> SimplicialComplex {
    clique_complex(&within(distances, epsilon), None)
}

fn rips_complex_bounded(distances: &[Vec<f64>], epsilon: f64, max_dim: usize) -> SimplicialComplex {
    clique_complex(&within(distances, epsilon), Some(max_dim))
}

fn unit_distance_matrix() -> Vec<Vec<f64>> {
    // 4 points: 0-1-2-3 in a line, distance = index difference
    vec![
        vec![0.0, 1.0, 2.0, 3.0],
        vec![1.0, 0.0, 1.0, 2.0],
        vec![2.0, 1.0, 0.0, 1.0],
        vec![3.0, 2.0, 1.0, 0.0],
    ]
}

#[test]
fn rips_epsilon_1_line() {
    let dist = unit_distance_matrix();
    let complex = rips_complex(&dist, 1.0);
    assert_eq!(complex.num_edges(), 3);
    assert_eq!(complex.num_triangles(), 0);
}

#[test]
fn rips_epsilon_2_line() {
    let dist = unit_distance_matrix();
    let complex = rips_complex(&dist, 2.0);
    assert_eq!(complex.num_edges(), 5);
    assert_eq!(complex.num_triangles(), 2);
}

#[test]
fn rips_epsilon_3_line() {
    let dist = unit_distance_matrix();
    let complex = rips_complex(&dist, 3.0);
    assert_eq!(complex.num_triangles(), 4);
}

#[test]
fn rips_clique_complete_graph() {
    let dist = vec![
        vec![0.0, 0.5, 0.5],
        vec![0.5, 0.0, 0.5],
        vec![0.5, 0.5, 0.0],
    ];
    let complex = rips_complex(&dist, 1.0);
    assert_eq!(complex.num_triangles(), 1);
    assert_eq!(complex.num_edges(), 3);
}

#[test]
fn rips_bounded_dimension() {
    let dist = vec![
        vec![0.0, 0.5, 0.5],
        vec![0.5, 0.0, 0.5],
        vec![0.5, 0.5, 0.0],
    ];
    let complex = rips_complex_bounded(&dist, 1.0, 1);
    assert_eq!(complex.num_triangles(), 0);
    assert_eq!(complex.num_edges(), 3);
}

#[test]
fn rips_single_point() {
    let dist = vec![vec![0.0]];
    let complex = rips_complex(&dist, 1.0);
    assert_eq!(complex.num_simplices(), 1);
    assert_eq!(complex.num_vertices(), 1);
}

#[test]
fn rips_two_points_within_epsilon() {
    let dist = vec![vec![0.0, 0.5], vec![0.5, 0.0]];
    let complex = rips_complex(&dist, 1.0);
    assert_eq!(complex.num_edges(), 1);
}

#[test]
fn rips_two_points_outside_epsilon() {
    let dist = vec![vec![0.0, 2.0], vec![2.0, 0.0]];
    let complex = rips_complex(&dist, 1.0);
    assert_eq!(complex.num_edges(), 0);
}

#[test]
fn clique_complex_is_a_complex() {
    let dist = unit_distance_matrix();
    let complex = rips_complex(&dist, 2.0);
    assert!(complex.is_simplicial_complex());
    // 4 vertices, 5 edges, 2 triangles
    assert_eq!(complex.num_simplices(), 11);
}

#[test]
fn bounded_dimension_zero_keeps_only_vertices() {
    let dist = vec![
        vec![0.0, 0.5, 0.5],
        vec![0.5, 0.0, 0.5],
        vec![0.5, 0.5, 0.0],
    ];
    let complex = rips_complex_bounded(&dist, 1.0, 0);
    assert_eq!(complex.num_vertices(), 3);
    assert_eq!(complex.num_edges(), 0);
    assert_eq!(complex.num_simplices(), 3);
}

#[test]
fn two_points_with_dimension_zero_have_no_edge() {
    let dist = vec![vec![0.0, 0.5], vec![0.5, 0.0]];
    let complex = rips_complex_bounded(&dist, 1.0, 0);
    assert_eq!(complex.num_edges(), 0);
    assert_eq!(complex.num_vertices(), 2);
}

#[test]
fn only_upper_triangle_is_read() {
    // The entry below the diagonal says "close", the one above says "far".
    let within = vec![vec![true, false], vec![true, true]];
    let complex = clique_complex(&within, None);
    assert_eq!(complex.num_edges(), 0);
    assert_eq!(complex.num_vertices(), 2);
}

#[test]
fn short_rows_count_as_far() {
    let within = vec![vec![true], vec![true], vec![true]];
    let complex = clique_complex(&within, None);
    assert_eq!(complex.num_vertices(), 3);
    assert_eq!(complex.num_edges(), 0);
}

#[test]
fn five_points_all_close_give_the_full_simplex() {
    let within = vec![vec![true; 5]; 5];
    let complex = clique_complex(&within, None);
    // 2^5 - 1 faces of the 4-simplex
    assert_eq!(complex.num_simplices(), 31);
    assert_eq!(complex.max_dimension(), 4);
}

#[test]
fn two_clusters_example() {
    let distances = vec![
        vec![0.0, 0.3, 0.5, 2.0, 2.5],
        vec![0.3, 0.0, 0.4, 1.8, 2.3],
        vec![0.5, 0.4, 0.0, 1.0, 1.5],
        vec![2.0, 1.8, 1.0, 0.0, 0.3],
        vec![2.5, 2.3, 1.5, 0.3, 0.0],
    ];
    let tight = rips_complex(&distances, 0.5);
    assert_eq!(tight.num_edges(), 4);
    assert_eq!(tight.num_triangles(), 1);
    assert_eq!(tight.connected_components().len(), 2);
    let medium = rips_complex(&distances, 1.0);
    // {0,1}, {0,2}, {1,2}, {2,3}, {3,4}
    assert_eq!(medium.num_edges(), 5);
    assert_eq!(medium.num_triangles(), 1);
    assert_eq!(medium.connected_components().len(), 1);
    assert_eq!(medium.euler_characteristic(), 1);
    let graph_only = rips_complex_bounded(&distances, 0.5, 1);
    assert_eq!(graph_only.num_triangles(), 0);
}

#[test]
fn larger_epsilon_only_adds_simplices() {
    let dist = unit_distance_matrix();
    let small = rips_complex(&dist, 1.0);
    let large = rips_complex(&dist, 2.0);
    for s in small.simplices() {
        assert!(large.contains(s));
    }
    assert!(large.num_simplices() > small.num_simplices());
}
