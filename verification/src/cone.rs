//! Cones: complexes with an apex, a vertex joined by an edge to every other vertex.
//! Removing a dominated vertex from a cone leaves a cone, and a cone with two or more
//! vertices always has a dominated vertex, so a strong collapse reduces every cone to a
//! single vertex.
use vstd::prelude::*;
use crate::collapse::{apply_vertex_removals, is_dominated, is_strong_sequence, nbhd_within};
use crate::complex::{
    all_valid, avoids, dim_count, face_closed, is_complex, len_is, lemma_closed_under_all_faces,
};
use crate::flag::lemma_vertex_removals_keep_complex;
use crate::graph::{adjacent, is_vertex, lemma_edge_ends};
use crate::simplex::{is_face, valid_simplex};

verus! {

/// `apex` is a vertex of `s` that shares an edge with every other vertex.
pub open spec fn is_apex(s: Set<Seq<usize>>, apex: usize) -> bool {
    &&& is_vertex(s, apex)
    &&& forall|v: usize| is_vertex(s, v) && v != apex ==> #[trigger] adjacent(s, apex, v)
}

/// `s` is a cone: it has an apex. A single vertex is a cone; the empty complex is not.
pub open spec fn has_apex(s: Set<Seq<usize>>) -> bool {
    exists|apex: usize| #[trigger] is_apex(s, apex)
}

/// Removing a dominated vertex, with every simplex through it, from a cone leaves a
/// cone.
pub proof fn lemma_cone_remove_dominated(s: Set<Seq<usize>>, v: usize)
    requires
        has_apex(s),
        is_dominated(s, v),
    ensures
        has_apex(s.filter(avoids(v))),
{
    let r = s.filter(avoids(v));
    let a = choose|a: usize| #[trigger] is_apex(s, a);
    let b = if a != v {
        a
    } else {
        choose|w: usize| is_vertex(s, w) && w != v && #[trigger] nbhd_within(s, v, w)
    };
    assert(!seq![b].contains(v)) by {
        if seq![b].contains(v) {
            assert(seq![b][0] == v);
        }
    }
    assert(is_vertex(r, b));
    assert forall|u: usize| is_vertex(r, u) && u != b implies #[trigger] adjacent(r, b, u) by {
        assert(is_vertex(s, u));
        assert(u != v) by {
            assert(!seq![u].contains(v));
            assert(seq![u][0] == u);
        }
        if a != v {
            assert(adjacent(s, a, u));
        } else {
            assert(adjacent(s, a, u));
            assert((u == v || adjacent(s, v, u)) ==> (u == b || adjacent(s, b, u)));
        }
        assert(adjacent(s, b, u));
        let e = if s.contains(seq![b, u]) { seq![b, u] } else { seq![u, b] };
        assert(s.contains(e));
        assert(!e.contains(v)) by {
            if e.contains(v) {
                let k = choose|k: int| 0 <= k < e.len() && e[k] == v;
                assert(e[0] == b || e[0] == u);
            }
        }
        assert(r.contains(e));
    }
    assert(is_apex(r, b));
}

/// Removing, in turn, vertices that are each dominated when they are removed keeps a
/// cone a cone.
pub proof fn lemma_cone_strong_sequence(s: Set<Seq<usize>>, vs: Seq<usize>)
    requires
        has_apex(s),
        is_strong_sequence(s, vs),
    ensures
        has_apex(apply_vertex_removals(s, vs)),
    decreases vs.len(),
{
    if vs.len() > 0 {
        let d = vs.drop_last();
        crate::collapse::lemma_strong_sequence_drop_last(s, vs);
        lemma_cone_strong_sequence(s, d);
        lemma_cone_remove_dominated(apply_vertex_removals(s, d), vs.last());
    }
}

/// A cone with at least two vertices has a dominated vertex: every vertex other than the
/// apex is dominated by the apex.
pub proof fn lemma_cone_has_dominated(s: Set<Seq<usize>>)
    requires
        s.finite(),
        face_closed(s),
        has_apex(s),
        dim_count(s, 0) > 1,
    ensures
        exists|v: usize| #[trigger] is_dominated(s, v),
{
    let a = choose|a: usize| #[trigger] is_apex(s, a);
    let verts = s.filter(len_is(1));
    vstd::set_lib::lemma_set_subset_finite(s, verts);
    let x = verts.choose();
    assert(verts.contains(x));
    assert(verts.remove(x).len() > 0);
    let y = verts.remove(x).choose();
    assert(verts.remove(x).contains(y));
    let t = if x[0] != a { x } else { y };
    assert(t[0] != a) by {
        if x[0] == a && y[0] == a {
            assert(x =~= seq![a]);
            assert(y =~= seq![a]);
        }
    }
    let v = t[0];
    assert(t =~= seq![v]);
    assert(is_vertex(s, v));
    assert forall|u: usize| (u == v || adjacent(s, v, u)) implies (u == a || adjacent(s, a, u)) by {
        if u == v {
            assert(adjacent(s, a, v));
        } else if u != a {
            lemma_edge_ends(s, v, u);
            assert(adjacent(s, a, u));
        }
    }
    assert(nbhd_within(s, v, a));
    assert(is_dominated(s, v));
}

/// A cone with a single vertex consists of that vertex alone.
pub proof fn lemma_one_vertex_cone(s: Set<Seq<usize>>)
    requires
        s.finite(),
        all_valid(s),
        face_closed(s),
        has_apex(s),
        dim_count(s, 0) <= 1,
    ensures
        s.len() == 1,
        dim_count(s, 0) == 1,
{
    let a = choose|a: usize| #[trigger] is_apex(s, a);
    let verts = s.filter(len_is(1));
    vstd::set_lib::lemma_set_subset_finite(s, verts);
    assert(verts.contains(seq![a]));
    assert forall|t: Seq<usize>| #[trigger] s.contains(t) implies t == seq![a] by {
        assert(valid_simplex(t));
        assert forall|i: int| 0 <= i < t.len() implies t[i] == a by {
            let p = seq![t[i]];
            assert(is_face(p, t)) by {
                assert(p[0] == t[i]);
            }
            lemma_closed_under_all_faces(s, t, p);
            assert(verts.contains(p));
            if t[i] != a {
                assert(p != seq![a]) by {
                    assert(p[0] != seq![a][0]);
                }
                assert(verts.remove(seq![a]).contains(p));
                assert(verts.remove(seq![a]).len() > 0);
            }
        }
        if t.len() > 1 {
            assert(t[0] < t[1]);
        }
        assert(t =~= seq![a]);
    }
    assert(s =~= set![seq![a]]);
    assert(verts =~= set![seq![a]]);
}

/// Every cone collapses to a point by strong collapse: removing, in turn, vertices that
/// are each dominated when they are removed, until one vertex is left or none is
/// dominated, leaves a single vertex and nothing else.
pub proof fn lemma_cone_strongly_collapsible(s: Set<Seq<usize>>, vs: Seq<usize>)
    requires
        is_complex(s),
        has_apex(s),
        is_strong_sequence(s, vs),
        dim_count(apply_vertex_removals(s, vs), 0) <= 1 || forall|v: usize|
            !is_dominated(apply_vertex_removals(s, vs), v),
    ensures
        apply_vertex_removals(s, vs).len() == 1,
        dim_count(apply_vertex_removals(s, vs), 0) == 1,
{
    let r = apply_vertex_removals(s, vs);
    lemma_vertex_removals_keep_complex(s, vs);
    lemma_cone_strong_sequence(s, vs);
    if dim_count(r, 0) > 1 {
        lemma_cone_has_dominated(r);
        let v = choose|v: usize| #[trigger] is_dominated(r, v);
    }
    lemma_one_vertex_cone(r);
}

} // verus!
