//! Flag complexes: every set of pairwise adjacent vertices spans a simplex. Clique
//! (Vietoris-Rips) complexes are flag complexes, and on a flag complex removing a
//! dominated vertex together with every simplex through it keeps the Euler
//! characteristic.
use vstd::prelude::*;
use crate::graph::{adjacent, is_vertex};
use crate::collapse::{
    alt_count, apply_vertex_removals, is_dominated, is_strong_sequence, lemma_alt_count_remove_two,
    nbhd_within,
};
use crate::complex::{all_valid, avoids, face_closed, is_complex, lemma_closed_under_all_faces};
use crate::simplex::{
    is_face, lemma_push_to_set, lemma_remove_sorted, lemma_removed_entry_gone, lemma_removed_keeps,
    lemma_sorted_unique, strictly_sorted, valid_simplex,
};

verus! {

/// Every non-empty set of vertices of `s` that are pairwise adjacent spans a simplex of
/// `s`.
pub open spec fn is_flag(s: Set<Seq<usize>>) -> bool {
    forall|t: Seq<usize>|
        #![trigger s.contains(t)]
        valid_simplex(t) && (forall|i: int| 0 <= i < t.len() ==> is_vertex(s, #[trigger] t[i])) && (
        forall|i: int, j: int|
            #![trigger t[i], t[j]]
            0 <= i < j < t.len() ==> adjacent(s, t[i], t[j])) ==> s.contains(t)
}

/// The strictly increasing list `t` with `w` inserted in its place.
pub open spec fn with_vertex(t: Seq<usize>, w: usize) -> Seq<usize>
    decreases t.len(),
{
    if t.len() == 0 {
        seq![w]
    } else if t.last() < w {
        t.push(w)
    } else {
        with_vertex(t.drop_last(), w).push(t.last())
    }
}

/// Inserting a new vertex into a strictly increasing list keeps it strictly increasing,
/// adds one entry, and adds exactly that vertex to its set of entries.
pub proof fn lemma_with_vertex(t: Seq<usize>, w: usize)
    requires
        strictly_sorted(t),
        !t.contains(w),
    ensures
        strictly_sorted(with_vertex(t, w)),
        with_vertex(t, w).len() == t.len() + 1,
        with_vertex(t, w).to_set() == t.to_set().insert(w),
    decreases t.len(),
{
    let r = with_vertex(t, w);
    if t.len() == 0 {
        assert(r.to_set() =~= t.to_set().insert(w)) by {
            assert(r[0] == w);
        }
    } else if t.last() < w {
        assert forall|a: int, b: int| 0 <= a < b < r.len() implies r[a] < r[b] by {
            if b == t.len() {
                assert(t[a] <= t[t.len() - 1]);
            } else {
                assert(t[a] < t[b]);
            }
        }
        lemma_push_to_set(t, w);
    } else {
        let d = t.drop_last();
        assert(t =~= d.push(t.last()));
        assert(!d.contains(w)) by {
            if d.contains(w) {
                let k = choose|k: int| 0 <= k < d.len() && d[k] == w;
                assert(t[k] == w);
            }
        }
        assert(strictly_sorted(d)) by {
            assert forall|a: int, b: int| 0 <= a < b < d.len() implies d[a] < d[b] by {
                assert(t[a] < t[b]);
            }
        }
        lemma_with_vertex(d, w);
        let q = with_vertex(d, w);
        assert(t.last() != w) by {
            assert(t[t.len() - 1] == t.last());
        }
        assert forall|a: int| 0 <= a < q.len() implies q[a] < t.last() by {
            assert(q.to_set().contains(q[a]));
            assert(d.to_set().insert(w).contains(q[a]));
            if q[a] != w {
                assert(d.contains(q[a]));
                let k = choose|k: int| 0 <= k < d.len() && d[k] == q[a];
                assert(t[k] < t[t.len() - 1]);
            }
        }
        assert(r == q.push(t.last()));
        assert forall|a: int, b: int| 0 <= a < b < r.len() implies r[a] < r[b] by {
            if b == q.len() {
                assert(q[a] < t.last());
            } else {
                assert(q[a] < q[b]);
            }
        }
        lemma_push_to_set(q, t.last());
        lemma_push_to_set(d, t.last());
        assert(r.to_set() =~= t.to_set().insert(w)) by {
            assert(t.to_set() == d.to_set().insert(t.last()));
        }
    }
}

/// The map inserting `w` into a strictly increasing list.
pub open spec fn add_vertex(w: usize) -> spec_fn(Seq<usize>) -> Seq<usize> {
    |a: Seq<usize>| with_vertex(a, w)
}

/// Two lists without `w` that give the same list once `w` is inserted are equal.
proof fn lemma_with_vertex_injective(a: Seq<usize>, b: Seq<usize>, w: usize)
    requires
        strictly_sorted(a),
        strictly_sorted(b),
        !a.contains(w),
        !b.contains(w),
        with_vertex(a, w) == with_vertex(b, w),
    ensures
        a == b,
{
    lemma_with_vertex(a, w);
    lemma_with_vertex(b, w);
    assert(a.to_set() =~= a.to_set().insert(w).remove(w));
    assert(b.to_set() =~= b.to_set().insert(w).remove(w));
    lemma_sorted_unique(a, b);
}

/// Removing, for every `a` of `xs`, both `a` and `a` with `w` inserted leaves the
/// alternating count unchanged.
proof fn lemma_remove_vertex_pairs(s: Set<Seq<usize>>, xs: Set<Seq<usize>>, w: usize, n: nat)
    requires
        s.finite(),
        xs.finite(),
        forall|t: Seq<usize>| s.contains(t) ==> t.len() <= n,
        forall|a: Seq<usize>|
            #[trigger] xs.contains(a) ==> s.contains(a) && valid_simplex(a) && !a.contains(w)
                && s.contains(with_vertex(a, w)),
    ensures
        alt_count(s.difference(xs).difference(xs.map(add_vertex(w))), n) == alt_count(s, n),
    decreases xs.len(),
{
    if xs.len() == 0 {
        xs.lemma_len0_is_empty();
        assert(s.difference(xs).difference(xs.map(add_vertex(w))) =~= s);
    } else {
        let a = xs.choose();
        assert(xs.contains(a));
        let b = with_vertex(a, w);
        lemma_with_vertex(a, w);
        assert(b.to_set().contains(w));
        assert(b.contains(w));
        assert(a != b);
        let s1 = s.remove(a).remove(b);
        lemma_alt_count_remove_two(s, a, b, n);
        let xs1 = xs.remove(a);
        assert forall|c: Seq<usize>| #[trigger] xs1.contains(c) implies s1.contains(c) && valid_simplex(c)
            && !c.contains(w) && s1.contains(with_vertex(c, w)) by {
            assert(xs.contains(c));
            lemma_with_vertex(c, w);
            assert(with_vertex(c, w).to_set().contains(w));
            if with_vertex(c, w) == b {
                lemma_with_vertex_injective(c, a, w);
            }
        }
        lemma_remove_vertex_pairs(s1, xs1, w, n);
        let f = add_vertex(w);
        assert forall|t: Seq<usize>|
            #[trigger] s1.difference(xs1).difference(xs1.map(f)).contains(t)
                <==> s.difference(xs).difference(xs.map(f)).contains(t) by {
            if xs.map(f).contains(t) && !xs1.map(f).contains(t) {
                let c = choose|c: Seq<usize>| xs.contains(c) && t == f(c);
                assert(c == a);
            }
            if xs1.map(f).contains(t) {
                let c = choose|c: Seq<usize>| xs1.contains(c) && t == f(c);
                assert(xs.contains(c) && t == f(c));
            }
            if t == b {
                assert(xs.contains(a) && b == f(a));
            }
        }
        assert(s1.difference(xs1).difference(xs1.map(f)) =~= s.difference(xs).difference(xs.map(f)));
    }
}

/// Two distinct vertices of a member of a complex closed under faces span an edge of it.
proof fn lemma_edge_of_member(s: Set<Seq<usize>>, a: Seq<usize>, x: usize, y: usize)
    requires
        face_closed(s),
        all_valid(s),
        s.contains(a),
        a.contains(x),
        a.contains(y),
        x != y,
    ensures
        adjacent(s, x, y),
        is_vertex(s, x),
{
    let e = if x < y { seq![x, y] } else { seq![y, x] };
    assert(is_face(e, a)) by {
        assert forall|i: int| 0 <= i < e.len() implies a.contains(#[trigger] e[i]) by {
            if i == 0 {
            } else {
            }
        }
    }
    lemma_closed_under_all_faces(s, a, e);
    let p = seq![x];
    assert(is_face(p, a)) by {
        assert forall|i: int| 0 <= i < p.len() implies a.contains(#[trigger] p[i]) by {
        }
    }
    lemma_closed_under_all_faces(s, a, p);
}

/// In a flag complex, a simplex through `v` that misses the vertex `w` dominating `v`
/// extends by `w` to a simplex of the complex.
proof fn lemma_dominated_extends(s: Set<Seq<usize>>, v: usize, w: usize, a: Seq<usize>)
    requires
        all_valid(s),
        face_closed(s),
        is_flag(s),
        is_vertex(s, w),
        v != w,
        nbhd_within(s, v, w),
        s.contains(a),
        a.contains(v),
        !a.contains(w),
    ensures
        s.contains(with_vertex(a, w)),
{
    assert(valid_simplex(a));
    lemma_with_vertex(a, w);
    let b = with_vertex(a, w);
    assert forall|x: usize| #[trigger] a.contains(x) && x != w implies adjacent(s, w, x) by {
        if x == v {
            assert((v == v || adjacent(s, v, v)) ==> (v == w || adjacent(s, w, v)));
        } else {
            lemma_edge_of_member(s, a, v, x);
            assert((x == v || adjacent(s, v, x)) ==> (x == w || adjacent(s, w, x)));
        }
    }
    assert forall|i: int| 0 <= i < b.len() implies is_vertex(s, #[trigger] b[i]) by {
        assert(b.to_set().contains(b[i]));
        if b[i] != w {
            assert(a.contains(b[i]));
            let k = choose|k: int| 0 <= k < a.len() && a[k] == b[i];
            if a.len() > 1 {
                let other = if k == 0 { a[1] } else { a[0] };
                assert(other != b[i]);
                lemma_edge_of_member(s, a, b[i], other);
            } else {
                assert(a =~= seq![b[i]]);
            }
        }
    }
    assert forall|i: int, j: int| 0 <= i < j < b.len() implies adjacent(s, #[trigger] b[i], #[trigger] b[j]) by {
        assert(b.to_set().contains(b[i]));
        assert(b.to_set().contains(b[j]));
        assert(b[i] < b[j]);
        if b[i] == w {
            assert(a.contains(b[j]));
        } else if b[j] == w {
            assert(a.contains(b[i]));
        } else {
            lemma_edge_of_member(s, a, b[i], b[j]);
        }
    }
    assert(valid_simplex(b));
}

/// On a flag complex, removing a vertex `v` dominated by another vertex `w`, together
/// with every simplex containing `v`, leaves the alternating count unchanged.
pub proof fn lemma_remove_dominated_vertex(s: Set<Seq<usize>>, v: usize, w: usize, n: nat)
    requires
        s.finite(),
        all_valid(s),
        face_closed(s),
        is_flag(s),
        is_vertex(s, w),
        v != w,
        nbhd_within(s, v, w),
        forall|t: Seq<usize>| s.contains(t) ==> t.len() <= n,
    ensures
        alt_count(s.filter(avoids(v)), n) == alt_count(s, n),
{
    let xs = s.filter(|t: Seq<usize>| t.contains(v) && !t.contains(w));
    vstd::set_lib::lemma_set_subset_finite(s, xs);
    assert forall|a: Seq<usize>|
        #[trigger] xs.contains(a) implies s.contains(a) && valid_simplex(a) && !a.contains(w)
            && s.contains(with_vertex(a, w)) by {
        lemma_dominated_extends(s, v, w, a);
    }
    lemma_remove_vertex_pairs(s, xs, w, n);
    let f = add_vertex(w);
    assert forall|t: Seq<usize>|
        #[trigger] s.difference(xs).difference(xs.map(f)).contains(t) <==> s.filter(avoids(v)).contains(t) by {
        if s.contains(t) {
            assert(valid_simplex(t));
            if !t.contains(v) {
                if xs.map(f).contains(t) {
                    let c = choose|c: Seq<usize>| xs.contains(c) && t == f(c);
                    lemma_with_vertex(c, w);
                    assert(c.to_set().contains(v));
                    assert(t.to_set().contains(v));
                }
            } else if t.contains(w) {
                let i = choose|i: int| 0 <= i < t.len() && t[i] == w;
                let kv = choose|k: int| 0 <= k < t.len() && t[k] == v;
                assert(kv != i);
                let c = t.remove(i);
                assert(s.contains(c));
                lemma_remove_sorted(t, i);
                lemma_removed_entry_gone(t, i);
                lemma_removed_keeps(t, i, v);
                assert(xs.contains(c));
                lemma_with_vertex(c, w);
                assert forall|x: usize| #[trigger] f(c).to_set().contains(x) <==> t.to_set().contains(x) by {
                    if c.contains(x) {
                        let k = choose|k: int| 0 <= k < c.len() && c[k] == x;
                        assert(t.contains(c[k]));
                    }
                    if t.contains(x) && x != w {
                        lemma_removed_keeps(t, i, x);
                    }
                }
                assert(f(c).to_set() =~= t.to_set());
                lemma_sorted_unique(f(c), t);
                assert(xs.map(f).contains(t));
            }
        }
    }
    assert(s.difference(xs).difference(xs.map(f)) =~= s.filter(avoids(v)));
}

/// A finite complex of valid simplices, closed under faces, that is a flag complex.
pub open spec fn flag_complex(s: Set<Seq<usize>>) -> bool {
    is_complex(s) && is_flag(s)
}

/// Removing a vertex with every simplex through it from a complex leaves a complex.
pub proof fn lemma_remove_vertex_keeps_complex(s: Set<Seq<usize>>, v: usize)
    requires
        is_complex(s),
    ensures
        is_complex(s.filter(avoids(v))),
{
    let r = s.filter(avoids(v));
    vstd::set_lib::lemma_set_subset_finite(s, r);
    assert forall|t: Seq<usize>, i: int|
        r.contains(t) && t.len() > 1 && 0 <= i < t.len() implies r.contains(#[trigger] t.remove(i)) by {
        assert(s.contains(t.remove(i)));
        assert(valid_simplex(t));
        lemma_remove_sorted(t, i);
        if t.remove(i).contains(v) {
            let k = choose|k: int| 0 <= k < t.remove(i).len() && t.remove(i)[k] == v;
            assert(t.contains(t.remove(i)[k]));
        }
    }
}

/// Removing a vertex with every simplex through it from a flag complex leaves a flag
/// complex.
pub proof fn lemma_remove_vertex_keeps_flag(s: Set<Seq<usize>>, v: usize)
    requires
        flag_complex(s),
    ensures
        flag_complex(s.filter(avoids(v))),
{
    let r = s.filter(avoids(v));
    lemma_remove_vertex_keeps_complex(s, v);
    assert forall|t: Seq<usize>|
        #![trigger r.contains(t)]
        valid_simplex(t) && (forall|i: int| 0 <= i < t.len() ==> is_vertex(r, #[trigger] t[i])) && (
        forall|i: int, j: int|
            #![trigger t[i], t[j]]
            0 <= i < j < t.len() ==> adjacent(r, t[i], t[j])) implies r.contains(t) by {
        assert forall|i: int| 0 <= i < t.len() implies is_vertex(s, #[trigger] t[i]) by {
            assert(is_vertex(r, t[i]));
        }
        assert forall|i: int, j: int| 0 <= i < j < t.len() implies adjacent(s, #[trigger] t[i], #[trigger] t[j]) by {
            assert(adjacent(r, t[i], t[j]));
        }
        assert(s.contains(t));
        if t.contains(v) {
            let k = choose|k: int| 0 <= k < t.len() && t[k] == v;
            assert(is_vertex(r, t[k]));
            assert(seq![t[k]].contains(v)) by {
                assert(seq![t[k]][0] == v);
            }
        }
    }
}

/// Removing a sequence of vertices, each with every simplex through it, from a complex
/// leaves a complex contained in the one we started from.
pub proof fn lemma_vertex_removals_keep_complex(s: Set<Seq<usize>>, vs: Seq<usize>)
    requires
        is_complex(s),
    ensures
        is_complex(apply_vertex_removals(s, vs)),
        apply_vertex_removals(s, vs).subset_of(s),
    decreases vs.len(),
{
    if vs.len() > 0 {
        lemma_vertex_removals_keep_complex(s, vs.drop_last());
        lemma_remove_vertex_keeps_complex(apply_vertex_removals(s, vs.drop_last()), vs.last());
    }
}

/// Removing a sequence of vertices, each with every simplex through it, from a flag
/// complex leaves a flag complex contained in the one we started from.
pub proof fn lemma_vertex_removals_keep_flag(s: Set<Seq<usize>>, vs: Seq<usize>)
    requires
        flag_complex(s),
    ensures
        flag_complex(apply_vertex_removals(s, vs)),
        apply_vertex_removals(s, vs).subset_of(s),
    decreases vs.len(),
{
    if vs.len() > 0 {
        lemma_vertex_removals_keep_flag(s, vs.drop_last());
        lemma_remove_vertex_keeps_flag(apply_vertex_removals(s, vs.drop_last()), vs.last());
    }
}

/// A strong collapse of a flag complex keeps the Euler characteristic: removing, in
/// turn, vertices that are each dominated when they are removed leaves the alternating
/// count of simplices unchanged.
pub proof fn lemma_strong_collapse_keeps_euler(s: Set<Seq<usize>>, vs: Seq<usize>, n: nat)
    requires
        flag_complex(s),
        is_strong_sequence(s, vs),
        forall|t: Seq<usize>| s.contains(t) ==> t.len() <= n,
    ensures
        alt_count(apply_vertex_removals(s, vs), n) == alt_count(s, n),
    decreases vs.len(),
{
    if vs.len() > 0 {
        let d = vs.drop_last();
        crate::collapse::lemma_strong_sequence_drop_last(s, vs);
        lemma_strong_collapse_keeps_euler(s, d, n);
        let s1 = apply_vertex_removals(s, d);
        lemma_vertex_removals_keep_flag(s, d);
        let v = vs.last();
        let w = choose|w: usize| is_vertex(s1, w) && w != v && #[trigger] nbhd_within(s1, v, w);
        lemma_remove_dominated_vertex(s1, v, w, n);
    }
}

} // verus!
