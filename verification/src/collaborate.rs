//! Agent collaboration topology: agents are vertices and collaboration groups are
//! simplices. A hole is a pair of agents in the same connected component that do not
//! collaborate directly.
use vstd::prelude::*;
use crate::complex::{comp_views, dim_count, faces_of_set, SimplicialComplex};
use crate::counting::alt_sum;
use crate::euler::{betti_numbers, betti_spec, euler_characteristic};
use crate::graph::{connected, is_component_partition, is_vertex, num_components};
use crate::simplex::{is_face, lemma_face_len, strictly_sorted, valid_simplex, Simplex};

verus! {

/// `t` is a face of one of the first `q` groups.
pub open spec fn in_some_group(groups: Seq<Seq<usize>>, q: int, t: Seq<usize>) -> bool {
    exists|r: int| 0 <= r < q && #[trigger] faces_of_set(groups[r]).contains(t)
}

/// The collaboration complex of `num_agents` agents: every agent, and every group of
/// `groups` with all of its faces.
pub open spec fn collaboration_set(num_agents: nat, groups: Seq<Seq<usize>>) -> Set<Seq<usize>> {
    Set::new(
        |t: Seq<usize>|
            (t.len() == 1 && t[0] < num_agents) || in_some_group(groups, groups.len() as int, t),
    )
}

/// Build the collaboration complex: each agent `0..num_agents` is a vertex, and each
/// group is added as a simplex with all of its faces.
pub fn build_collaboration_complex(num_agents: usize, groups: &Vec<Vec<usize>>) -> (k: SimplicialComplex)
    requires
        forall|q: int| 0 <= q < groups@.len() ==> (#[trigger] groups@[q]).len() > 0,
    ensures
        k.wf(),
        k@ == collaboration_set(num_agents as nat, comp_views(groups@)),
        forall|a: usize| a < num_agents ==> #[trigger] k@.contains(seq![a]),
        forall|q: int, t: Seq<usize>|
            #![trigger k@.contains(t), groups@[q]]
            0 <= q < groups@.len() && strictly_sorted(t) && t.to_set() == groups@[q]@.to_set()
                ==> k@.contains(t),
        forall|t: Seq<usize>|
            #[trigger] k@.contains(t) ==> valid_simplex(t) && ((t.len() == 1 && t[0] < num_agents)
                || exists|q: int| 0 <= q < groups@.len() && is_face(t, #[trigger] groups@[q]@)),
{
    let ghost gs = comp_views(groups@);
    let mut complex = SimplicialComplex::new();
    let mut i: usize = 0;
    while i < num_agents
        invariant
            i <= num_agents,
            complex.wf(),
            forall|t: Seq<usize>| #[trigger] complex@.contains(t) <==> (t.len() == 1 && t[0] < i),
        decreases num_agents - i,
    {
        let mut v: Vec<usize> = Vec::new();
        v.push(i);
        assert(v@ =~= seq![i]);
        let ghost before = complex@;
        complex.add(v);
        proof {
            assert forall|t: Seq<usize>|
                #[trigger] complex@.contains(t) <==> (t.len() == 1 && t[0] < i + 1) by {
                assert(complex@.contains(t) <==> (before.contains(t) || faces_of_set(seq![i]).contains(t)));
                assert(before.contains(t) <==> (t.len() == 1 && t[0] < i));
                if faces_of_set(seq![i]).contains(t) {
                    assert(seq![i].contains(t[0]));
                    lemma_face_len(seq![i], t);
                    assert(t =~= seq![i]);
                }
                if t.len() == 1 && t[0] == i {
                    assert(t =~= seq![i]);
                    assert(seq![i].contains(i));
                    assert(is_face(t, seq![i]));
                }
            }
        }
        i = i + 1;
    }
    let n = groups.len();
    let mut q: usize = 0;
    while q < n
        invariant
            n == groups@.len(),
            gs == comp_views(groups@),
            q <= n,
            complex.wf(),
            forall|r: int| 0 <= r < groups@.len() ==> (#[trigger] groups@[r]).len() > 0,
            forall|t: Seq<usize>|
                #[trigger] complex@.contains(t) <==> ((t.len() == 1 && t[0] < num_agents) || in_some_group(gs, q as int, t)),
        decreases n - q,
    {
        let g = groups[q].clone();
        assert(g@ =~= gs[q as int]);
        let ghost before = complex@;
        complex.add(g);
        proof {
            assert forall|t: Seq<usize>|
                #[trigger] complex@.contains(t) <==> ((t.len() == 1 && t[0] < num_agents) || in_some_group(gs, q + 1, t)) by {
                assert(complex@.contains(t) <==> (before.contains(t) || faces_of_set(gs[q as int]).contains(t)));
                assert(before.contains(t) <==> ((t.len() == 1 && t[0] < num_agents) || in_some_group(gs, q as int, t)));
                if in_some_group(gs, q + 1, t) {
                    let r = choose|r: int| 0 <= r < q + 1 && #[trigger] faces_of_set(gs[r]).contains(t);
                    if r < q {
                        assert(in_some_group(gs, q as int, t));
                    }
                }
                if in_some_group(gs, q as int, t) {
                    let r = choose|r: int| 0 <= r < q && #[trigger] faces_of_set(gs[r]).contains(t);
                    assert(in_some_group(gs, q + 1, t));
                }
                if faces_of_set(gs[q as int]).contains(t) {
                    assert(in_some_group(gs, q + 1, t));
                }
            }
        }
        q = q + 1;
    }
    assert(complex@ =~= collaboration_set(num_agents as nat, gs));
    proof {
        lemma_collaboration_members(num_agents as nat, groups@, complex@);
    }
    complex
}

/// What the collaboration complex holds, read off the agents and groups: every agent
/// as a vertex, every group as a whole simplex, and nothing but vertices of agents and
/// faces of groups.
proof fn lemma_collaboration_members(num_agents: nat, groups: Seq<Vec<usize>>, k: Set<Seq<usize>>)
    requires
        forall|q: int| 0 <= q < groups.len() ==> (#[trigger] groups[q]).len() > 0,
        k == collaboration_set(num_agents, comp_views(groups)),
    ensures
        forall|a: usize| a < num_agents ==> #[trigger] k.contains(seq![a]),
        forall|q: int, t: Seq<usize>|
            #![trigger k.contains(t), groups[q]]
            0 <= q < groups.len() && strictly_sorted(t) && t.to_set() == groups[q]@.to_set()
                ==> k.contains(t),
        forall|t: Seq<usize>|
            #[trigger] k.contains(t) ==> valid_simplex(t) && ((t.len() == 1 && t[0] < num_agents)
                || exists|q: int| 0 <= q < groups.len() && is_face(t, #[trigger] groups[q]@)),
{
    let gs = comp_views(groups);
    assert forall|a: usize| a < num_agents implies #[trigger] k.contains(seq![a]) by {
        assert(seq![a][0] == a);
    }
    assert forall|q: int, t: Seq<usize>|
        #![trigger k.contains(t), groups[q]]
        0 <= q < groups.len() && strictly_sorted(t) && t.to_set() == groups[q]@.to_set()
            implies k.contains(t) by {
        let g = groups[q]@;
        assert(gs[q] == g);
        assert(g.to_set().contains(g[0]));
        assert(t.len() > 0) by {
            if t.len() == 0 {
                assert(t.to_set().contains(g[0]));
            }
        }
        assert forall|i: int| 0 <= i < t.len() implies g.contains(#[trigger] t[i]) by {
            assert(t.to_set().contains(t[i]));
        }
        assert(faces_of_set(gs[q]).contains(t));
        assert(in_some_group(gs, gs.len() as int, t));
    }
    assert forall|t: Seq<usize>|
        #[trigger] k.contains(t) implies valid_simplex(t) && ((t.len() == 1 && t[0] < num_agents)
            || exists|q: int| 0 <= q < groups.len() && is_face(t, #[trigger] groups[q]@)) by {
        if !(t.len() == 1 && t[0] < num_agents) {
            let r = choose|r: int| 0 <= r < gs.len() && #[trigger] faces_of_set(gs[r]).contains(t);
            assert(gs[r] == groups[r]@);
            assert(is_face(t, groups[r]@));
        } else {
            assert(crate::simplex::strictly_sorted(t));
        }
    }
}

/// Pairs in lexicographic order.
pub open spec fn pair_lt(p: (usize, usize), q: (usize, usize)) -> bool {
    p.0 < q.0 || (p.0 == q.0 && p.1 < q.1)
}

/// The pairs increase strictly in lexicographic order.
pub open spec fn pairs_sorted(s: Seq<(usize, usize)>) -> bool {
    forall|i: int, j: int| 0 <= i < j < s.len() ==> pair_lt(s[i], s[j])
}

/// `(a, b)` with `a < b` is a hole: both agents lie in one of the components, and the
/// complex has no edge between them.
pub open spec fn is_hole(s: Set<Seq<usize>>, comps: Seq<Seq<usize>>, a: usize, b: usize) -> bool {
    &&& a < b
    &&& exists|c: int| 0 <= c < comps.len() && (#[trigger] comps[c]).contains(a) && comps[c].contains(b)
    &&& !s.contains(seq![a, b])
}

/// Insert `p` into the strictly increasing `v` unless it is already there.
fn insert_sorted(v: &mut Vec<(usize, usize)>, p: (usize, usize))
    requires
        pairs_sorted(old(v)@),
    ensures
        pairs_sorted(final(v)@),
        forall|x: (usize, usize)| #[trigger] final(v)@.contains(x) <==> (old(v)@.contains(x) || x == p),
{
    let n = v.len();
    let mut pos: usize = 0;
    while pos < n && pair_less(v[pos], p)
        invariant
            n == v@.len(),
            pos <= n,
            forall|k: int| 0 <= k < pos ==> pair_lt(v@[k], p),
        decreases n - pos,
    {
        pos = pos + 1;
    }
    if pos < n && v[pos].0 == p.0 && v[pos].1 == p.1 {
        assert(v@[pos as int] == p);
        assert forall|x: (usize, usize)| #[trigger] v@.contains(x) <==> (v@.contains(x) || x == p) by {
        }
        return;
    }
    let ghost old_v = v@;
    v.insert(pos, p);
    proof {
        assert forall|a: int, b: int| 0 <= a < b < v@.len() implies pair_lt(v@[a], v@[b]) by {
            if b < pos {
                assert(pair_lt(old_v[a], old_v[b]));
            } else if b == pos {
            } else if a < pos {
                assert(pair_lt(old_v[a], old_v[b - 1]));
                assert(pair_lt(old_v[a], p));
            } else if a == pos {
                assert(!pair_lt(old_v[pos as int], p));
                assert(old_v[pos as int] != p);
                if b - 1 > pos {
                    assert(pair_lt(old_v[pos as int], old_v[b - 1]));
                }
            } else {
                assert(pair_lt(old_v[a - 1], old_v[b - 1]));
            }
        }
        assert forall|x: (usize, usize)| #[trigger] v@.contains(x) <==> (old_v.contains(x) || x == p) by {
            if v@.contains(x) {
                let k = choose|k: int| 0 <= k < v@.len() && v@[k] == x;
                if k < pos {
                    assert(old_v[k] == x);
                } else if k > pos {
                    assert(old_v[k - 1] == x);
                }
            }
            if old_v.contains(x) {
                let k = choose|k: int| 0 <= k < old_v.len() && old_v[k] == x;
                if k < pos {
                    assert(v@[k] == x);
                } else {
                    assert(v@[k + 1] == x);
                }
            }
            if x == p {
                assert(v@[pos as int] == p);
            }
        }
    }
}

/// Is `p` before `q` in lexicographic order?
fn pair_less(p: (usize, usize), q: (usize, usize)) -> (r: bool)
    ensures
        r == pair_lt(p, q),
{
    p.0 < q.0 || (p.0 == q.0 && p.1 < q.1)
}

/// The holes of a collaboration complex: the pairs `(a, b)`, `a < b`, of agents that
/// lie in the same component but share no edge, in increasing order, each once.
pub fn collaboration_holes(complex: &SimplicialComplex, components: &Vec<Vec<usize>>) -> (holes: Vec<(usize, usize)>)
    requires
        forall|c: int| 0 <= c < components@.len() ==> (#[trigger] components@[c])@.no_duplicates(),
    ensures
        pairs_sorted(holes@),
        forall|a: usize, b: usize| #[trigger] holes@.contains((a, b)) <==> is_hole(complex@, comp_views(components@), a, b),
{
    let ghost cs = comp_views(components@);
    let mut holes: Vec<(usize, usize)> = Vec::new();
    let nc = components.len();
    for ci in 0..nc
        invariant
            nc == components@.len(),
            cs == comp_views(components@),
            forall|c: int| 0 <= c < components@.len() ==> (#[trigger] components@[c])@.no_duplicates(),
            pairs_sorted(holes@),
            forall|a: usize, b: usize| #[trigger] holes@.contains((a, b)) <==> (a < b && !complex@.contains(seq![a, b])
                && exists|c: int| 0 <= c < ci && (#[trigger] cs[c]).contains(a) && cs[c].contains(b)),
    {
        let component = &components[ci];
        let ghost cv = component@;
        assert(cs[ci as int] == cv);
        let m = component.len();
        if m >= 2 {
            for i in 0..m
                invariant
                    m == cv.len(),
                    cv == component@,
                    cv.no_duplicates(),
                    pairs_sorted(holes@),
                    forall|a: usize, b: usize| #[trigger] holes@.contains((a, b)) <==> (a < b && !complex@.contains(seq![a, b])
                        && ((exists|c: int| 0 <= c < ci && (#[trigger] cs[c]).contains(a) && cs[c].contains(b))
                            || (exists|x: int, y: int| 0 <= x < i && x < y < m && #[trigger] pair_of(cv, x, y) == (a, b)))),
            {
                for j in i + 1..m
                    invariant
                        m == cv.len(),
                        cv == component@,
                        cv.no_duplicates(),
                        i < m,
                        pairs_sorted(holes@),
                        forall|a: usize, b: usize| #[trigger] holes@.contains((a, b)) <==> (a < b && !complex@.contains(seq![a, b])
                            && ((exists|c: int| 0 <= c < ci && (#[trigger] cs[c]).contains(a) && cs[c].contains(b))
                                || (exists|x: int, y: int| 0 <= x < i && x < y < m && #[trigger] pair_of(cv, x, y) == (a, b))
                                || (exists|y: int| i < y < j && #[trigger] pair_of(cv, i as int, y) == (a, b)))),
                {
                    let a = component[i];
                    let b = component[j];
                    assert(a != b);
                    let (lo, hi) = if a < b { (a, b) } else { (b, a) };
                    let edge = Simplex::edge(lo, hi);
                    let ghost before = holes@;
                    let present = complex.contains(&edge);
                    if !present {
                        insert_sorted(&mut holes, (lo, hi));
                    }
                    proof {
                        assert(pair_of(cv, i as int, j as int) == (lo, hi));
                        assert forall|x: usize, y: usize| #[trigger] holes@.contains((x, y)) <==> (x < y && !complex@.contains(seq![x, y])
                            && ((exists|c: int| 0 <= c < ci && (#[trigger] cs[c]).contains(x) && cs[c].contains(y))
                                || (exists|x2: int, y2: int| 0 <= x2 < i && x2 < y2 < m && #[trigger] pair_of(cv, x2, y2) == (x, y))
                                || (exists|y2: int| i < y2 < j + 1 && #[trigger] pair_of(cv, i as int, y2) == (x, y)))) by {
                            assert(before.contains((x, y)) <==> (x < y && !complex@.contains(seq![x, y])
                                && ((exists|c: int| 0 <= c < ci && (#[trigger] cs[c]).contains(x) && cs[c].contains(y))
                                    || (exists|x2: int, y2: int| 0 <= x2 < i && x2 < y2 < m && #[trigger] pair_of(cv, x2, y2) == (x, y))
                                    || (exists|y2: int| i < y2 < j && #[trigger] pair_of(cv, i as int, y2) == (x, y)))));
                            if exists|y2: int| i < y2 < j + 1 && #[trigger] pair_of(cv, i as int, y2) == (x, y) {
                                let y2 = choose|y2: int| i < y2 < j + 1 && #[trigger] pair_of(cv, i as int, y2) == (x, y);
                                if y2 < j {
                                    assert(exists|y3: int| i < y3 < j && #[trigger] pair_of(cv, i as int, y3) == (x, y));
                                }
                            }
                            if exists|y2: int| i < y2 < j && #[trigger] pair_of(cv, i as int, y2) == (x, y) {
                                let y2 = choose|y2: int| i < y2 < j && #[trigger] pair_of(cv, i as int, y2) == (x, y);
                                assert(exists|y3: int| i < y3 < j + 1 && #[trigger] pair_of(cv, i as int, y3) == (x, y));
                            }
                            if x == lo && y == hi {
                                assert(exists|y3: int| i < y3 < j + 1 && #[trigger] pair_of(cv, i as int, y3) == (x, y));
                            }
                        }
                    }
                }
                proof {
                    assert forall|a: usize, b: usize| #[trigger] holes@.contains((a, b)) <==> (a < b && !complex@.contains(seq![a, b])
                        && ((exists|c: int| 0 <= c < ci && (#[trigger] cs[c]).contains(a) && cs[c].contains(b))
                            || (exists|x: int, y: int| 0 <= x < i + 1 && x < y < m && #[trigger] pair_of(cv, x, y) == (a, b)))) by {
                        if exists|x: int, y: int| 0 <= x < i + 1 && x < y < m && #[trigger] pair_of(cv, x, y) == (a, b) {
                            let (x, y) = choose|x: int, y: int| 0 <= x < i + 1 && x < y < m && #[trigger] pair_of(cv, x, y) == (a, b);
                            if x == i {
                                assert(exists|y2: int| i < y2 < m && #[trigger] pair_of(cv, i as int, y2) == (a, b));
                            }
                        }
                        if exists|y2: int| i < y2 < m && #[trigger] pair_of(cv, i as int, y2) == (a, b) {
                            let y2 = choose|y2: int| i < y2 < m && #[trigger] pair_of(cv, i as int, y2) == (a, b);
                            assert(exists|x: int, y: int| 0 <= x < i + 1 && x < y < m && #[trigger] pair_of(cv, x, y) == (a, b));
                        }
                    }
                }
            }
        }
        proof {
            assert forall|a: usize, b: usize| #[trigger] holes@.contains((a, b)) <==> (a < b && !complex@.contains(seq![a, b])
                && exists|c: int| 0 <= c < ci + 1 && (#[trigger] cs[c]).contains(a) && cs[c].contains(b)) by {
                if a < b && cv.contains(a) && cv.contains(b) {
                    let x = choose|x: int| 0 <= x < cv.len() && cv[x] == a;
                    let y = choose|y: int| 0 <= y < cv.len() && cv[y] == b;
                    assert(x != y);
                    if x < y {
                        assert(pair_of(cv, x, y) == (a, b));
                    } else {
                        assert(pair_of(cv, y, x) == (a, b));
                    }
                }
                if exists|c: int| 0 <= c < ci + 1 && (#[trigger] cs[c]).contains(a) && cs[c].contains(b) {
                    let c = choose|c: int| 0 <= c < ci + 1 && (#[trigger] cs[c]).contains(a) && cs[c].contains(b);
                    if c < ci {
                        assert(exists|c2: int| 0 <= c2 < ci && (#[trigger] cs[c2]).contains(a) && cs[c2].contains(b));
                    }
                }
                if exists|c: int| 0 <= c < ci && (#[trigger] cs[c]).contains(a) && cs[c].contains(b) {
                    let c = choose|c: int| 0 <= c < ci && (#[trigger] cs[c]).contains(a) && cs[c].contains(b);
                    assert(exists|c2: int| 0 <= c2 < ci + 1 && (#[trigger] cs[c2]).contains(a) && cs[c2].contains(b));
                }
                if m >= 2 {
                    if exists|x: int, y: int| 0 <= x < m && x < y < m && #[trigger] pair_of(cv, x, y) == (a, b) {
                        let (x, y) = choose|x: int, y: int| 0 <= x < m && x < y < m && #[trigger] pair_of(cv, x, y) == (a, b);
                        assert(cv.contains(cv[x]) && cv.contains(cv[y]));
                    }
                }
            }
        }
    }
    holes
}

/// Agents `a < b` that are connected in the 1-skeleton of `s` but do not collaborate
/// directly.
pub open spec fn missing_pair(s: Set<Seq<usize>>, a: usize, b: usize) -> bool {
    a < b && connected(s, a, b) && !s.contains(seq![a, b])
}

/// Over a list of the connected components, a hole is exactly a missing pair.
pub proof fn lemma_hole_is_missing_pair(s: Set<Seq<usize>>, cs: Seq<Seq<usize>>, a: usize, b: usize)
    requires
        is_component_partition(s, cs),
    ensures
        is_hole(s, cs, a, b) <==> missing_pair(s, a, b),
{
    if is_hole(s, cs, a, b) {
        let c = choose|c: int| 0 <= c < cs.len() && (#[trigger] cs[c]).contains(a) && cs[c].contains(b);
        assert(cs[c].contains(a) && cs[c].contains(b));
    }
    if missing_pair(s, a, b) {
        let p = choose|p: Seq<usize>| #[trigger] crate::graph::walk_between(s, p, a, b);
        assert(is_vertex(s, p[0]));
        let c = choose|c: int| 0 <= c < cs.len() && (#[trigger] cs[c].contains(a));
        assert(cs[c].contains(a) && connected(s, a, b));
        assert(cs[c].contains(b));
    }
}

/// What can be said of a collaboration complex without weights: the complex, its
/// components, Euler characteristic and Betti estimates, the number of realized pairs
/// and the missing pairs.
pub struct CollaborationSummary {
    /// The collaboration complex.
    pub complex: SimplicialComplex,
    /// Number of connected components.
    pub connected_components: usize,
    /// Euler characteristic; `None` when the complex has more simplices than `i64` holds.
    pub euler_characteristic: Option<i64>,
    /// Betti number estimates.
    pub betti_numbers: Vec<usize>,
    /// Number of pairwise collaborations (edges) realized.
    pub realized_pairs: usize,
    /// Pairs of agents in one component that do not collaborate directly, in increasing
    /// order, each once.
    pub holes: Vec<(usize, usize)>,
}

/// Build the collaboration complex of `num_agents` agents and `groups`, and analyze it:
/// components, Euler characteristic, Betti estimates, realized pairs and holes.
pub fn analyze_groups(num_agents: usize, groups: &Vec<Vec<usize>>) -> (r: CollaborationSummary)
    requires
        forall|q: int| 0 <= q < groups@.len() ==> (#[trigger] groups@[q]).len() > 0,
    ensures
        r.complex.wf(),
        r.complex@ == collaboration_set(num_agents as nat, comp_views(groups@)),
        forall|q: int, t: Seq<usize>|
            #![trigger r.complex@.contains(t), groups@[q]]
            0 <= q < groups@.len() && strictly_sorted(t) && t.to_set() == groups@[q]@.to_set()
                ==> r.complex@.contains(t),
        r.connected_components == num_components(r.complex@),
        r.euler_characteristic is Some <==> r.complex@.len() <= i64::MAX,
        r.euler_characteristic matches Some(chi) ==> chi == alt_sum(r.complex.f()),
        r.betti_numbers@.len() == betti_spec(r.complex@, r.complex.f()).len(),
        forall|k: int|
            0 <= k < r.betti_numbers@.len() ==> r.betti_numbers@[k] == #[trigger] betti_spec(
                r.complex@,
                r.complex.f(),
            )[k],
        r.realized_pairs == dim_count(r.complex@, 1),
        pairs_sorted(r.holes@),
        forall|a: usize, b: usize| #[trigger] r.holes@.contains((a, b)) <==> missing_pair(r.complex@, a, b),
{
    let complex = build_collaboration_complex(num_agents, groups);
    let components = complex.connected_components();
    let betti = betti_numbers(&complex);
    let total = complex.num_simplices();
    let chi = if (total as u64) <= (i64::MAX as u64) {
        Some(euler_characteristic(&complex))
    } else {
        None
    };
    let realized = complex.num_edges();
    let ghost cs = comp_views(components@);
    assert forall|c: int| 0 <= c < components@.len() implies (#[trigger] components@[c])@.no_duplicates() by {
        assert(cs[c] == components@[c]@);
    }
    let holes = collaboration_holes(&complex, &components);
    proof {
        assert forall|a: usize, b: usize| #[trigger] holes@.contains((a, b)) <==> missing_pair(complex@, a, b) by {
            lemma_hole_is_missing_pair(complex@, cs, a, b);
        }
    }
    CollaborationSummary {
        connected_components: components.len(),
        euler_characteristic: chi,
        betti_numbers: betti,
        realized_pairs: realized,
        holes,
        complex,
    }
}

/// The pair of entries `x` and `y` of `c`, smaller first.
pub open spec fn pair_of(c: Seq<usize>, x: int, y: int) -> (usize, usize) {
    if c[x] < c[y] {
        (c[x], c[y])
    } else {
        (c[y], c[x])
    }
}

} // verus!
