use simplicial_agent::simplex::{closure, link, star, Simplex};

fn sx(v: Vec<usize>) -> Simplex {
    Simplex::from_vertices(v)
}

#[test]
fn simplex_from_vertices_sorts() {
    let s = Simplex::from_vertices(vec![3, 1, 2]);
    assert_eq!(s.vertices(), &[1, 2, 3]);
}

#[test]
fn simplex_deduplicates() {
    let s = Simplex::from_vertices(vec![1, 1, 2]);
    assert_eq!(s.vertices(), &[1, 2]);
}

#[test]
fn dimension_point() {
    let s = Simplex::from_vertices(vec![0]);
    assert_eq!(s.dimension(), 0);
}

#[test]
fn dimension_triangle() {
    let s = Simplex::from_vertices(vec![0, 1, 2]);
    assert_eq!(s.dimension(), 2);
}

#[test]
fn face_relation_reflexive() {
    let s = Simplex::from_vertices(vec![0, 1]);
    assert!(s.is_face_of(&s));
}

#[test]
fn edge_face_of_triangle() {
    let edge = Simplex::from_vertices(vec![0, 1]);
    let tri = Simplex::from_vertices(vec![0, 1, 2]);
    assert!(edge.is_face_of(&tri));
}

#[test]
fn triangle_not_face_of_edge() {
    let edge = Simplex::from_vertices(vec![0, 1]);
    let tri = Simplex::from_vertices(vec![0, 1, 2]);
    assert!(!tri.is_face_of(&edge));
}

#[test]
fn proper_face_excludes_self() {
    let s = Simplex::from_vertices(vec![0, 1]);
    assert!(!s.is_proper_face_of(&s));
}

#[test]
fn boundary_of_triangle() {
    let tri = Simplex::from_vertices(vec![0, 1, 2]);
    let bd = tri.boundary();
    assert_eq!(bd.len(), 3);
    assert!(bd.contains(&Simplex::from_vertices(vec![0, 1])));
    assert!(bd.contains(&Simplex::from_vertices(vec![0, 2])));
    assert!(bd.contains(&Simplex::from_vertices(vec![1, 2])));
}

#[test]
fn boundary_of_edge() {
    let edge = Simplex::from_vertices(vec![0, 1]);
    let bd = edge.boundary();
    assert_eq!(bd.len(), 2);
    assert!(bd.contains(&Simplex::from_vertices(vec![0])));
    assert!(bd.contains(&Simplex::from_vertices(vec![1])));
}

#[test]
fn boundary_of_point_empty() {
    let pt = Simplex::from_vertices(vec![0]);
    assert!(pt.boundary().is_empty());
}

#[test]
fn faces_of_dimension_edge_in_triangle() {
    let tri = Simplex::from_vertices(vec![0, 1, 2]);
    let edges = tri.faces_of_dimension(1);
    assert_eq!(edges.len(), 3);
}

#[test]
fn all_faces_of_triangle() {
    let tri = Simplex::from_vertices(vec![0, 1, 2]);
    let faces = tri.all_faces();
    // 3 vertices + 3 edges + 1 triangle = 7
    assert_eq!(faces.len(), 7);
}

#[test]
fn star_operation() {
    let edge = Simplex::from_vertices(vec![0, 1]);
    let simplices = vec![
        Simplex::from_vertices(vec![0]),
        Simplex::from_vertices(vec![1]),
        Simplex::from_vertices(vec![2]),
        Simplex::from_vertices(vec![0, 1]),
        Simplex::from_vertices(vec![1, 2]),
        Simplex::from_vertices(vec![0, 1, 2]),
    ];
    let s = star(&edge, &simplices);
    assert_eq!(s.len(), 2); // {0,1} and {0,1,2}
}

#[test]
fn closure_adds_all_faces() {
    let tri = Simplex::from_vertices(vec![0, 1, 2]);
    let cl = closure(&[tri.clone()]);
    assert_eq!(cl.len(), 7);
}

#[test]
fn combinations_size() {
    let s = Simplex::from_vertices(vec![0, 1, 2, 3]);
    // 4 choose 2 = 6
    assert_eq!(s.combinations(2).len(), 6);
    // 4 choose 3 = 4
    assert_eq!(s.combinations(3).len(), 4);
}

#[test]
fn vertex_order_and_repeats_do_not_matter() {
    assert_eq!(sx(vec![2, 0, 1]), sx(vec![0, 1, 2, 1, 0]));
    assert_eq!(sx(vec![5, 5, 5]).vertices(), &[5]);
}

#[test]
fn len_and_is_empty() {
    let s = sx(vec![4, 7, 9]);
    assert_eq!(s.len(), 3);
    assert!(!s.is_empty());
}

#[test]
fn proper_face_of_larger_simplex() {
    assert!(sx(vec![0, 2]).is_proper_face_of(&sx(vec![0, 1, 2])));
    assert!(!sx(vec![0, 3]).is_proper_face_of(&sx(vec![0, 1, 2])));
}

#[test]
fn boundary_leaves_out_each_vertex_in_order() {
    let bd = sx(vec![0, 1, 2]).boundary();
    assert_eq!(bd, vec![sx(vec![1, 2]), sx(vec![0, 2]), sx(vec![0, 1])]);
}

#[test]
fn faces_of_dimension_lexicographic() {
    let edges = sx(vec![0, 1, 2]).faces_of_dimension(1);
    assert_eq!(edges, vec![sx(vec![0, 1]), sx(vec![0, 2]), sx(vec![1, 2])]);
    assert!(sx(vec![0, 1, 2]).faces_of_dimension(3).is_empty());
    assert_eq!(sx(vec![0, 1, 2]).faces_of_dimension(2), vec![sx(vec![0, 1, 2])]);
}

#[test]
fn all_faces_ordered_by_size() {
    let faces = sx(vec![3, 5]).all_faces();
    assert_eq!(faces, vec![sx(vec![3]), sx(vec![5]), sx(vec![3, 5])]);
    assert_eq!(sx(vec![0, 1, 2, 3]).all_faces().len(), 15);
}

#[test]
fn combinations_zero_and_too_many() {
    let s = sx(vec![0, 1, 2]);
    assert!(s.combinations(0).is_empty());
    assert!(s.combinations(4).is_empty());
    assert_eq!(s.combinations(3), vec![sx(vec![0, 1, 2])]);
}

#[test]
fn link_of_vertex_in_triangle() {
    let simplices = closure(&[sx(vec![0, 1, 2])]);
    let mut lk: Vec<Vec<usize>> = link(&sx(vec![0]), &simplices)
        .iter()
        .map(|s| s.vertices().to_vec())
        .collect();
    lk.sort();
    assert_eq!(lk, vec![vec![1], vec![1, 2], vec![2]]);
}

#[test]
fn link_of_edge_in_two_triangles() {
    let simplices = closure(&[sx(vec![0, 1, 2]), sx(vec![1, 2, 3])]);
    let mut lk: Vec<Vec<usize>> = link(&sx(vec![1, 2]), &simplices)
        .iter()
        .map(|s| s.vertices().to_vec())
        .collect();
    lk.sort();
    assert_eq!(lk, vec![vec![0], vec![3]]);
}

#[test]
fn closure_has_no_repeats() {
    let cl = closure(&[sx(vec![0, 1, 2]), sx(vec![1, 2, 3]), sx(vec![0, 1])]);
    // vertices 0..3, edges 01 02 12 13 23, triangles 012 123
    assert_eq!(cl.len(), 11);
    for i in 0..cl.len() {
        for j in (i + 1)..cl.len() {
            assert_ne!(cl[i], cl[j]);
        }
    }
}

#[test]
fn star_of_vertex_keeps_order() {
    let simplices = vec![sx(vec![0, 1]), sx(vec![2]), sx(vec![0])];
    assert_eq!(star(&sx(vec![0]), &simplices), vec![sx(vec![0, 1]), sx(vec![0])]);
}
