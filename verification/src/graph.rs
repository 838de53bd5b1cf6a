//! The 1-skeleton of a complex viewed as a graph: vertices, adjacency, walks and
//! connected components.
use vstd::prelude::*;

verus! {

/// `v` is a vertex of `s`: the 0-simplex `{v}` belongs to `s`.
pub open spec fn is_vertex(s: Set<Seq<usize>>, v: usize) -> bool {
    s.contains(seq![v])
}

/// `u` and `v` span an edge of `s`.
pub open spec fn adjacent(s: Set<Seq<usize>>, u: usize, v: usize) -> bool {
    s.contains(seq![u, v]) || s.contains(seq![v, u])
}

/// Step `i` of the walk `p` follows an edge of `s`.
pub open spec fn step_ok(s: Set<Seq<usize>>, p: Seq<usize>, i: int) -> bool {
    adjacent(s, p[i], p[i + 1])
}

/// `p` is a walk in the 1-skeleton of `s`: a non-empty sequence of vertices in which
/// consecutive entries span edges.
pub open spec fn is_walk(s: Set<Seq<usize>>, p: Seq<usize>) -> bool {
    &&& p.len() > 0
    &&& forall|i: int| 0 <= i < p.len() ==> is_vertex(s, #[trigger] p[i])
    &&& forall|i: int| 0 <= i < p.len() - 1 ==> #[trigger] step_ok(s, p, i)
}

/// `p` is a walk from `u` to `v`.
pub open spec fn walk_between(s: Set<Seq<usize>>, p: Seq<usize>, u: usize, v: usize) -> bool {
    is_walk(s, p) && p[0] == u && p.last() == v
}

/// `u` and `v` lie in the same connected component of the 1-skeleton of `s`.
pub open spec fn connected(s: Set<Seq<usize>>, u: usize, v: usize) -> bool {
    exists|p: Seq<usize>| #[trigger] walk_between(s, p, u, v)
}

/// `cs` lists the connected components of the 1-skeleton of `s`: non-empty lists
/// without repeats, pairwise disjoint, covering exactly the vertices, each made of
/// mutually connected vertices and closed under connectivity.
pub open spec fn is_component_partition(s: Set<Seq<usize>>, cs: Seq<Seq<usize>>) -> bool {
    &&& forall|i: int| 0 <= i < cs.len() ==> (#[trigger] cs[i]).len() > 0 && cs[i].no_duplicates()
    &&& forall|i: int, j: int, x: usize|
        0 <= i < j < cs.len() && (#[trigger] cs[i].contains(x)) ==> !(#[trigger] cs[j].contains(x))
    &&& forall|v: usize| is_vertex(s, v) <==> exists|i: int| 0 <= i < cs.len() && (#[trigger] cs[i].contains(v))
    &&& forall|i: int, u: usize, v: usize|
        0 <= i < cs.len() && (#[trigger] cs[i].contains(u)) && (#[trigger] cs[i].contains(v))
            ==> connected(s, u, v)
    &&& forall|i: int, u: usize, v: usize|
        0 <= i < cs.len() && (#[trigger] cs[i].contains(u)) && #[trigger] connected(s, u, v)
            ==> cs[i].contains(v)
}

/// The vertices connected to `v`.
pub open spec fn class_of(s: Set<Seq<usize>>, v: usize) -> Set<usize> {
    Set::new(|w: usize| connected(s, v, w))
}

/// The connected components of the 1-skeleton of `s`, each as a set of vertices.
pub open spec fn components(s: Set<Seq<usize>>) -> Set<Set<usize>> {
    Set::new(|c: Set<usize>| exists|v: usize| is_vertex(s, v) && c == class_of(s, v))
}

/// The number of connected components of the 1-skeleton of `s`.
pub open spec fn num_components(s: Set<Seq<usize>>) -> nat {
    components(s).len()
}

/// The sets of vertices of the lists in `cs`.
pub open spec fn vertex_sets(cs: Seq<Seq<usize>>) -> Seq<Set<usize>> {
    cs.map_values(|c: Seq<usize>| c.to_set())
}

/// Every list of connected components has one entry per component.
pub proof fn lemma_partition_count(s: Set<Seq<usize>>, cs: Seq<Seq<usize>>)
    requires
        is_component_partition(s, cs),
    ensures
        components(s).finite(),
        cs.len() == num_components(s),
        vertex_sets(cs).to_set() == components(s),
{
    let m = vertex_sets(cs);
    assert forall|i: int| 0 <= i < cs.len() implies #[trigger] m[i] == class_of(s, cs[i][0]) by {
        assert(cs[i].contains(cs[i][0]));
        assert forall|w: usize| m[i].contains(w) <==> class_of(s, cs[i][0]).contains(w) by {
            if cs[i].contains(w) {
                assert(connected(s, cs[i][0], w));
            }
            if connected(s, cs[i][0], w) {
                assert(cs[i].contains(w));
            }
        }
        assert(m[i] =~= class_of(s, cs[i][0]));
    }
    assert forall|i: int, j: int| 0 <= i < j < cs.len() implies m[i] != m[j] by {
        assert(cs[i].contains(cs[i][0]));
        assert(m[i].contains(cs[i][0]));
        if m[i] == m[j] {
            assert(m[j].contains(cs[i][0]));
            assert(cs[j].contains(cs[i][0]));
        }
    }
    assert forall|c: Set<usize>| m.to_set().contains(c) <==> components(s).contains(c) by {
        if m.contains(c) {
            let i = choose|i: int| 0 <= i < m.len() && m[i] == c;
            assert(cs[i].contains(cs[i][0]));
            assert(is_vertex(s, cs[i][0]));
        }
        if components(s).contains(c) {
            let v = choose|v: usize| is_vertex(s, v) && c == class_of(s, v);
            let i = choose|i: int| 0 <= i < cs.len() && (#[trigger] cs[i].contains(v));
            let r = cs[i][0];
            assert(cs[i].contains(r));
            assert(connected(s, r, v));
            assert forall|w: usize| class_of(s, v).contains(w) <==> class_of(s, r).contains(w) by {
                if connected(s, v, w) {
                    lemma_connected_trans(s, r, v, w);
                }
                if connected(s, r, w) {
                    lemma_connected_symm(s, r, v);
                    lemma_connected_trans(s, v, r, w);
                }
            }
            assert(class_of(s, v) =~= class_of(s, r));
            assert(m[i] == c);
        }
    }
    assert(m.to_set() =~= components(s));
    m.unique_seq_to_set();
}

/// The two ends of an edge are vertices, in a complex closed under faces.
pub proof fn lemma_edge_ends(s: Set<Seq<usize>>, u: usize, v: usize)
    requires
        crate::complex::face_closed(s),
        adjacent(s, u, v),
    ensures
        is_vertex(s, u),
        is_vertex(s, v),
{
    let e = if s.contains(seq![u, v]) { seq![u, v] } else { seq![v, u] };
    assert(s.contains(e));
    assert(e.remove(0) =~= seq![e[1]]);
    assert(e.remove(1) =~= seq![e[0]]);
    assert(s.contains(e.remove(0)));
    assert(s.contains(e.remove(1)));
}

/// Every vertex is connected to itself.
pub proof fn lemma_connected_refl(s: Set<Seq<usize>>, v: usize)
    requires
        is_vertex(s, v),
    ensures
        connected(s, v, v),
{
    let p = seq![v];
    assert(walk_between(s, p, v, v));
}

/// A walk to `v` extends along an edge from `v`.
pub proof fn lemma_connected_step(s: Set<Seq<usize>>, u: usize, v: usize, w: usize)
    requires
        connected(s, u, v),
        adjacent(s, v, w),
        is_vertex(s, w),
    ensures
        connected(s, u, w),
{
    let p = choose|p: Seq<usize>| #[trigger] walk_between(s, p, u, v);
    let q = p.push(w);
    assert forall|i: int| 0 <= i < q.len() implies is_vertex(s, #[trigger] q[i]) by {
        if i < p.len() {
            assert(q[i] == p[i]);
        }
    }
    assert forall|i: int| 0 <= i < q.len() - 1 implies #[trigger] step_ok(s, q, i) by {
        if i < p.len() - 1 {
            assert(step_ok(s, p, i));
        }
    }
    assert(walk_between(s, q, u, w));
}

/// Connectivity is symmetric.
pub proof fn lemma_connected_symm(s: Set<Seq<usize>>, u: usize, v: usize)
    requires
        connected(s, u, v),
    ensures
        connected(s, v, u),
{
    let p = choose|p: Seq<usize>| #[trigger] walk_between(s, p, u, v);
    let q = p.reverse();
    assert forall|i: int| 0 <= i < q.len() implies is_vertex(s, #[trigger] q[i]) by {
        assert(q[i] == p[p.len() - 1 - i]);
    }
    assert forall|i: int| 0 <= i < q.len() - 1 implies #[trigger] step_ok(s, q, i) by {
        let j = p.len() - 2 - i;
        assert(step_ok(s, p, j));
    }
    assert(walk_between(s, q, v, u));
}

/// Connectivity is transitive.
pub proof fn lemma_connected_trans(s: Set<Seq<usize>>, u: usize, v: usize, w: usize)
    requires
        connected(s, u, v),
        connected(s, v, w),
    ensures
        connected(s, u, w),
{
    let p = choose|p: Seq<usize>| #[trigger] walk_between(s, p, u, v);
    let q = choose|q: Seq<usize>| #[trigger] walk_between(s, q, v, w);
    let r = p + q.drop_first();
    assert forall|i: int| 0 <= i < r.len() implies is_vertex(s, #[trigger] r[i]) by {
        if i < p.len() {
            assert(r[i] == p[i]);
        } else {
            assert(r[i] == q[i - p.len() + 1]);
        }
    }
    assert forall|i: int| 0 <= i < r.len() - 1 implies #[trigger] step_ok(s, r, i) by {
        if i < p.len() - 1 {
            assert(step_ok(s, p, i));
        } else {
            let j = i - p.len() + 1;
            assert(step_ok(s, q, j));
            if i == p.len() - 1 {
                assert(r[i] == p.last());
                assert(p.last() == q[0]);
            }
        }
    }
    if q.len() == 1 {
        assert(r =~= p);
    }
    assert(walk_between(s, r, u, w));
}

/// A list of vertices closed under adjacency contains the end of every walk that
/// starts in it.
pub proof fn lemma_closed_contains_walk(s: Set<Seq<usize>>, c: Seq<usize>, p: Seq<usize>)
    requires
        is_walk(s, p),
        c.contains(p[0]),
        forall|x: usize, w: usize| c.contains(x) && adjacent(s, x, w) ==> c.contains(w),
    ensures
        c.contains(p.last()),
{
    assert forall|i: int| 0 <= i < p.len() implies c.contains(#[trigger] p[i]) by {
        lemma_closed_contains_prefix(s, c, p, i);
    }
}

proof fn lemma_closed_contains_prefix(s: Set<Seq<usize>>, c: Seq<usize>, p: Seq<usize>, i: int)
    requires
        is_walk(s, p),
        c.contains(p[0]),
        forall|x: usize, w: usize| c.contains(x) && adjacent(s, x, w) ==> c.contains(w),
        0 <= i < p.len(),
    ensures
        c.contains(p[i]),
    decreases i,
{
    if i > 0 {
        lemma_closed_contains_prefix(s, c, p, i - 1);
        assert(step_ok(s, p, i - 1));
    }
}

} // verus!
