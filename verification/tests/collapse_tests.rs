use simplicial_agent::collapse::{collapse, is_cone, strong_collapse};
use simplicial_agent::complex::SimplicialComplex;

#[test]
fn collapse_triangle_removes_all() {
    let mut k = SimplicialComplex::new();
    k.add(vec![0, 1, 2]);
    let result = collapse(&k);
    assert!(result.is_collapsible);
    assert!(result.steps > 0);
}

#[test]
fn collapse_hollow_triangle_not_collapsible() {
    let mut k = SimplicialComplex::new();
    k.add(vec![0, 1]);
    k.add(vec![1, 2]);
    k.add(vec![0, 2]);
    let result = collapse(&k);
    assert_eq!(result.steps, 0);
    assert!(!result.is_collapsible);
}

#[test]
fn collapse_tetrahedron() {
    let mut k = SimplicialComplex::new();
    k.add(vec![0, 1, 2, 3]);
    let result = collapse(&k);
    assert!(result.is_collapsible);
}

#[test]
fn cone_is_detected() {
    let mut k = SimplicialComplex::new();
    k.add(vec![0, 1]);
    k.add(vec![0, 2]);
    k.add(vec![1, 2]);
    k.add(vec![0, 1, 2]);
    let mut cone_k = SimplicialComplex::new();
    cone_k.add(vec![0, 1, 2]);
    assert!(is_cone(&cone_k));
}

#[test]
fn strong_collapse_path() {
    let mut k = SimplicialComplex::new();
    k.add(vec![0, 1]);
    k.add(vec![1, 2]);
    k.add(vec![2, 3]);
    let result = strong_collapse(&k);
    assert!(result.steps > 0);
}

#[test]
fn collapse_preserves_vertices_count_for_point() {
    let mut k = SimplicialComplex::new();
    k.add(vec![0]);
    let result = collapse(&k);
    assert_eq!(result.complex.num_simplices(), 1);
}

#[test]
fn collapse_two_triangles_sharing_edge() {
    let mut k = SimplicialComplex::new();
    k.add(vec![0, 1, 2]);
    k.add(vec![1, 2, 3]);
    let result = collapse(&k);
    assert!(result.is_collapsible);
}

#[test]
fn collapse_step_count() {
    let mut k = SimplicialComplex::new();
    k.add(vec![0, 1, 2]);
    let result = collapse(&k);
    assert!(result.steps >= 1);
}

#[test]
fn removed_pairs_recorded() {
    let mut k = SimplicialComplex::new();
    k.add(vec![0, 1, 2]);
    let result = collapse(&k);
    assert!(!result.removed_pairs.is_empty());
}

#[test]
fn collapse_keeps_euler_characteristic() {
    let mut k = SimplicialComplex::new();
    k.add(vec![0, 1, 2]);
    k.add(vec![1, 2, 3]);
    k.add(vec![3, 4]);
    let result = collapse(&k);
    assert_eq!(result.complex.euler_characteristic(), k.euler_characteristic());
    assert_eq!(result.complex.euler_characteristic(), 1);
}

#[test]
fn collapse_of_triangle_first_removes_edge_with_face() {
    let mut k = SimplicialComplex::new();
    k.add(vec![0, 1, 2]);
    let result = collapse(&k);
    // no vertex of the solid triangle is free, so the first pair is an edge and the triangle
    let (sigma, tau) = &result.removed_pairs[0];
    assert_eq!(sigma.len(), 2);
    assert_eq!(tau, &vec![0, 1, 2]);
    assert_eq!(result.steps, 3);
    assert_eq!(result.removed_pairs.len(), 3);
    assert_eq!(result.complex.num_vertices(), 1);
}

#[test]
fn collapse_of_empty_complex() {
    let k = SimplicialComplex::new();
    let result = collapse(&k);
    assert_eq!(result.steps, 0);
    assert!(!result.is_collapsible);
}

#[test]
fn strong_collapse_path_to_a_point() {
    let mut k = SimplicialComplex::new();
    k.add(vec![0, 1]);
    k.add(vec![1, 2]);
    k.add(vec![2, 3]);
    let result = strong_collapse(&k);
    assert!(result.is_collapsible);
    assert_eq!(result.steps, 3);
    for (first, second) in &result.removed_pairs {
        assert_eq!(first.len(), 1);
        assert!(second.contains(&first[0]));
    }
}

#[test]
fn strong_collapse_hollow_triangle() {
    // each closed neighbourhood is {0, 1, 2}: vertices are dominated even though
    // the complex is a circle
    let mut k = SimplicialComplex::new();
    k.add(vec![0, 1]);
    k.add(vec![1, 2]);
    k.add(vec![0, 2]);
    let result = strong_collapse(&k);
    assert!(result.is_collapsible);
    assert_eq!(result.complex.euler_characteristic(), 1);
}

#[test]
fn strong_collapse_stops_without_domination() {
    // a square 0-1-2-3-0: no closed neighbourhood lies inside another
    let mut k = SimplicialComplex::new();
    k.add(vec![0, 1]);
    k.add(vec![1, 2]);
    k.add(vec![2, 3]);
    k.add(vec![0, 3]);
    let result = strong_collapse(&k);
    assert_eq!(result.steps, 0);
    assert!(!result.is_collapsible);
    assert_eq!(result.complex.num_simplices(), 8);
}

#[test]
fn cones_and_non_cones() {
    let mut star = SimplicialComplex::new();
    star.add(vec![0, 1]);
    star.add(vec![0, 2]);
    star.add(vec![0, 3]);
    assert!(is_cone(&star));
    let mut path = SimplicialComplex::new();
    path.add(vec![0, 1]);
    path.add(vec![1, 2]);
    path.add(vec![2, 3]);
    assert!(!is_cone(&path));
    assert!(!is_cone(&SimplicialComplex::new()));
    let mut point = SimplicialComplex::new();
    point.add(vec![4]);
    assert!(is_cone(&point));
}

#[test]
fn hollow_triangle_is_a_cone_but_not_collapsible() {
    let mut k = SimplicialComplex::new();
    k.add(vec![0, 1]);
    k.add(vec![1, 2]);
    k.add(vec![0, 2]);
    assert!(is_cone(&k));
    assert!(!collapse(&k).is_collapsible);
}

#[test]
fn strong_collapse_of_rips_complex_keeps_euler() {
    // Clique complex of 4 points on a line, each within 2 of the next two.
    let within = vec![
        vec![true, true, true, false],
        vec![true, true, true, true],
        vec![true, true, true, true],
        vec![false, true, true, true],
    ];
    let k = simplicial_agent::rips::clique_complex(&within, None);
    assert_eq!(k.euler_characteristic(), 1);
    let result = strong_collapse(&k);
    assert_eq!(result.complex.euler_characteristic(), 1);
    assert!(result.is_collapsible);
}

#[test]
fn strong_collapse_of_cycle_with_tail_keeps_euler() {
    // A 4-cycle (a flag complex: it has no triangles to fill) with a pendant vertex.
    let mut k = SimplicialComplex::new();
    k.add(vec![0, 1]);
    k.add(vec![1, 2]);
    k.add(vec![2, 3]);
    k.add(vec![0, 3]);
    k.add(vec![0, 4]);
    assert_eq!(k.euler_characteristic(), 0);
    let result = strong_collapse(&k);
    assert_eq!(result.steps, 1);
    assert_eq!(result.removed_pairs[0].0, vec![4]);
    assert_eq!(result.complex.euler_characteristic(), 0);
    assert_eq!(result.complex.num_vertices(), 4);
    assert!(!result.is_collapsible);
}

#[test]
fn solid_and_hollow_triangle_examples() {
    let mut k = SimplicialComplex::new();
    k.add(vec![0, 1, 2]);
    assert!(is_cone(&k));
    assert!(collapse(&k).is_collapsible);

    let mut hollow = SimplicialComplex::new();
    hollow.add(vec![0, 1]);
    hollow.add(vec![1, 2]);
    hollow.add(vec![0, 2]);
    let r = collapse(&hollow);
    assert!(!r.is_collapsible);
    assert_eq!(r.steps, 0);

    let mut tet = SimplicialComplex::new();
    tet.add(vec![0, 1, 2, 3]);
    assert!(collapse(&tet).is_collapsible);
}

#[test]
fn cones_are_strongly_collapsible() {
    // A cone over a 4-cycle with apex 4, plus a filled triangle under the apex.
    let mut k = SimplicialComplex::new();
    k.add(vec![0, 1]);
    k.add(vec![1, 2]);
    k.add(vec![2, 3]);
    k.add(vec![0, 3]);
    k.add(vec![0, 1, 4]);
    k.add(vec![2, 4]);
    k.add(vec![3, 4]);
    assert!(is_cone(&k));
    let result = strong_collapse(&k);
    assert!(result.is_collapsible);
    assert_eq!(result.complex.num_simplices(), 1);
    assert_eq!(result.steps, 4);
}
