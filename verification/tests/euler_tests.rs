use simplicial_agent::complex::SimplicialComplex;
use simplicial_agent::euler::{
    betti_numbers, compare_by_euler, compute_invariants, euler_characteristic,
    verify_euler_poincare,
};

#[test]
fn euler_point() {
    let mut k = SimplicialComplex::new();
    k.add(vec![0]);
    assert_eq!(euler_characteristic(&k), 1);
}

#[test]
fn euler_edge() {
    let mut k = SimplicialComplex::new();
    k.add(vec![0, 1]);
    assert_eq!(euler_characteristic(&k), 1);
}

#[test]
fn euler_hollow_triangle() {
    let mut k = SimplicialComplex::new();
    k.add(vec![0, 1]);
    k.add(vec![1, 2]);
    k.add(vec![0, 2]);
    assert_eq!(euler_characteristic(&k), 0);
}

#[test]
fn euler_solid_triangle() {
    let mut k = SimplicialComplex::new();
    k.add(vec![0, 1, 2]);
    assert_eq!(euler_characteristic(&k), 1);
}

#[test]
fn betti_connected() {
    let mut k = SimplicialComplex::new();
    k.add(vec![0, 1, 2]);
    let betti = betti_numbers(&k);
    assert_eq!(betti[0], 1);
}

#[test]
fn betti_disconnected() {
    let mut k = SimplicialComplex::new();
    k.add(vec![0, 1]);
    k.add(vec![2, 3]);
    let betti = betti_numbers(&k);
    assert_eq!(betti[0], 2);
}

#[test]
fn invariants_computation() {
    let mut k = SimplicialComplex::new();
    k.add(vec![0, 1, 2]);
    let inv = compute_invariants(&k);
    assert_eq!(inv.euler_characteristic, 1);
    assert_eq!(inv.f_vector, vec![3, 3, 1]);
    assert!(inv.betti_numbers[0] >= 1);
}

#[test]
fn compare_complexes() {
    let mut a = SimplicialComplex::new();
    a.add(vec![0, 1, 2]);

    let mut b = SimplicialComplex::new();
    b.add(vec![0, 1]);
    b.add(vec![1, 2]);
    b.add(vec![0, 2]);

    assert_eq!(compare_by_euler(&a, &b), std::cmp::Ordering::Greater);
}

#[test]
fn euler_poincare_holds_for_simplex() {
    let mut k = SimplicialComplex::new();
    k.add(vec![0, 1, 2]);
    assert!(verify_euler_poincare(&k));
}

#[test]
fn betti_of_empty_complex() {
    let k = SimplicialComplex::new();
    assert_eq!(betti_numbers(&k), vec![0]);
    assert!(verify_euler_poincare(&k));
}

#[test]
fn betti_estimates_of_triangle() {
    let mut k = SimplicialComplex::new();
    k.add(vec![0, 1, 2]);
    // ranks: r1 = min(3, 3) = 3, r2 = min(1, 3) = 1
    // b1 = max(0, 3 - 3 - 1) = 0, b2 = max(0, 1 - 1 - 0) = 0
    assert_eq!(betti_numbers(&k), vec![1, 0, 0]);
}

#[test]
fn betti_estimates_of_hollow_triangle() {
    let mut k = SimplicialComplex::new();
    k.add(vec![0, 1]);
    k.add(vec![1, 2]);
    k.add(vec![0, 2]);
    assert_eq!(betti_numbers(&k), vec![1, 0]);
    // χ = 0 but 1 - 0 = 1: the estimates miss the loop.
    assert!(!verify_euler_poincare(&k));
}

#[test]
fn betti_of_two_points() {
    let mut k = SimplicialComplex::new();
    k.add(vec![0]);
    k.add(vec![7]);
    assert_eq!(betti_numbers(&k), vec![2]);
    assert!(verify_euler_poincare(&k));
}

#[test]
fn compare_equal_and_less() {
    let mut a = SimplicialComplex::new();
    a.add(vec![0, 1]);
    let mut b = SimplicialComplex::new();
    b.add(vec![5, 6, 7]);
    assert_eq!(compare_by_euler(&a, &b), std::cmp::Ordering::Equal);
    let c = SimplicialComplex::new();
    assert_eq!(compare_by_euler(&c, &a), std::cmp::Ordering::Less);
}
