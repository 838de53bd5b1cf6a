use simplicial_agent::complex::SimplicialComplex;
use simplicial_agent::simplex::Simplex;

#[test]
fn empty_complex() {
    let k = SimplicialComplex::new();
    assert_eq!(k.num_simplices(), 0);
    assert!(k.is_simplicial_complex());
}

#[test]
fn add_triangle_closes_under_faces() {
    let mut k = SimplicialComplex::new();
    k.add(vec![0, 1, 2]);
    // 3 vertices + 3 edges + 1 triangle = 7
    assert_eq!(k.num_simplices(), 7);
    assert!(k.is_simplicial_complex());
}

#[test]
fn add_edge_only() {
    let mut k = SimplicialComplex::new();
    k.add(vec![0, 1]);
    assert_eq!(k.num_simplices(), 3); // 2 vertices + 1 edge
}

#[test]
fn f_vector_triangle() {
    let mut k = SimplicialComplex::new();
    k.add(vec![0, 1, 2]);
    assert_eq!(k.f_vector(), &[3, 3, 1]);
}

#[test]
fn euler_characteristic_triangle() {
    let mut k = SimplicialComplex::new();
    k.add(vec![0, 1, 2]);
    // χ = V - E + F = 3 - 3 + 1 = 1
    assert_eq!(k.euler_characteristic(), 1);
}

#[test]
fn euler_characteristic_two_triangles() {
    let mut k = SimplicialComplex::new();
    k.add(vec![0, 1, 2]);
    k.add(vec![1, 2, 3]);
    assert_eq!(k.euler_characteristic(), 1);
}

#[test]
fn skeleton_1_of_triangle() {
    let mut k = SimplicialComplex::new();
    k.add(vec![0, 1, 2]);
    let skel = k.skeleton(1);
    // 3 vertices + 3 edges = 6
    assert_eq!(skel.num_simplices(), 6);
}

#[test]
fn connected_components_single() {
    let mut k = SimplicialComplex::new();
    k.add(vec![0, 1]);
    k.add(vec![1, 2]);
    assert_eq!(k.connected_components().len(), 1);
}

#[test]
fn connected_components_disconnected() {
    let mut k = SimplicialComplex::new();
    k.add(vec![0, 1]);
    k.add(vec![2, 3]);
    assert_eq!(k.connected_components().len(), 2);
}

#[test]
fn contains_simplex() {
    let mut k = SimplicialComplex::new();
    k.add(vec![0, 1, 2]);
    assert!(k.contains(&Simplex::from_vertices(vec![0, 1])));
    assert!(!k.contains(&Simplex::from_vertices(vec![0, 3])));
}

#[test]
fn max_dimension() {
    let mut k = SimplicialComplex::new();
    k.add(vec![0, 1, 2, 3]);
    assert_eq!(k.max_dimension(), 3);
}

#[test]
fn hollow_tetrahedron_counts() {
    let mut k = SimplicialComplex::new();
    k.add(vec![0, 1, 2]);
    k.add(vec![0, 1, 3]);
    k.add(vec![0, 2, 3]);
    k.add(vec![1, 2, 3]);
    assert_eq!(k.num_simplices(), 14);
    assert_eq!(k.num_vertices(), 4);
    assert_eq!(k.num_edges(), 6);
    assert_eq!(k.num_triangles(), 4);
    assert_eq!(k.f_vector(), &[4, 6, 4]);
    assert_eq!(k.euler_characteristic(), 2);
}

#[test]
fn f_vector_sums_to_simplex_count() {
    let mut k = SimplicialComplex::new();
    k.add(vec![0, 1, 2, 3]);
    k.add(vec![3, 4]);
    let total: usize = k.f_vector().iter().sum();
    assert_eq!(total, k.num_simplices());
    assert_eq!(k.f_vector(), &[5, 7, 4, 1]);
}

#[test]
fn empty_complex_queries() {
    let k = SimplicialComplex::default();
    assert_eq!(k.max_dimension(), 0);
    assert!(k.f_vector().is_empty());
    assert_eq!(k.euler_characteristic(), 0);
    assert!(k.connected_components().is_empty());
    assert!(k.simplices().is_empty());
}

#[test]
fn adding_again_changes_nothing() {
    let mut k = SimplicialComplex::new();
    k.add(vec![2, 1, 0]);
    k.add(vec![0, 1]);
    k.add_simplex(&Simplex::from_vertices(vec![1]));
    assert_eq!(k.num_simplices(), 7);
    assert_eq!(k.simplices().len(), 7);
}

#[test]
fn simplices_of_dimension_lists_each_once() {
    let mut k = SimplicialComplex::new();
    k.add(vec![0, 1, 2]);
    k.add(vec![2, 3]);
    let mut edges: Vec<Vec<usize>> = k
        .simplices_of_dimension(1)
        .iter()
        .map(|s| s.vertices().to_vec())
        .collect();
    edges.sort();
    assert_eq!(edges, vec![vec![0, 1], vec![0, 2], vec![1, 2], vec![2, 3]]);
    assert!(k.simplices_of_dimension(5).is_empty());
}

#[test]
fn skeleton_zero_keeps_vertices() {
    let mut k = SimplicialComplex::new();
    k.add(vec![0, 1, 2]);
    let skel = k.skeleton(0);
    assert_eq!(skel.num_simplices(), 3);
    assert_eq!(skel.f_vector(), &[3]);
    assert_eq!(skel.max_dimension(), 0);
    let whole = k.skeleton(7);
    assert_eq!(whole.num_simplices(), 7);
}

#[test]
fn components_partition_vertices() {
    let mut k = SimplicialComplex::new();
    k.add(vec![0, 1]);
    k.add(vec![1, 2]);
    k.add(vec![5]);
    k.add(vec![3, 4]);
    let mut comps = k.connected_components();
    for c in comps.iter_mut() {
        c.sort();
    }
    comps.sort();
    assert_eq!(comps, vec![vec![0, 1, 2], vec![3, 4], vec![5]]);
}
