//! Elementary collapse and strong collapse of simplicial complexes.
//!
//! An elementary collapse removes a free face σ together with its unique coface τ
//! (`dim τ = dim σ + 1`); σ is free when τ is the only simplex of the next dimension
//! containing it. A strong collapse removes a vertex dominated by another vertex
//! (its closed neighbourhood in the 1-skeleton is contained in the other's) along
//! with every simplex containing it.
use vstd::prelude::*;
use crate::complex::{
    all_valid, avoids, comp_views, dim_count, face_closed, is_f_vector, len_is, ref_views,
    touches, SimplicialComplex,
};
use crate::counting::{alt_sum, lemma_filter_no_dup, lemma_push_contains, sign};
use crate::cone::{has_apex, is_apex, lemma_cone_strongly_collapsible};
use crate::flag::{is_flag, lemma_strong_collapse_keeps_euler, lemma_vertex_removals_keep_flag};
use crate::graph::{adjacent, is_vertex};
use crate::simplex::{
    is_face, lemma_face_len, lemma_remove_sorted, lemma_removed_entry_gone, lemma_removed_keeps,
    valid_simplex, Simplex,
};

verus! {

/// `sigma` is a free face of `s` with coface `tau`: `tau` is the only member of `s`
/// with one more vertex than `sigma` that has `sigma` as a face.
pub open spec fn is_free_pair(s: Set<Seq<usize>>, sigma: Seq<usize>, tau: Seq<usize>) -> bool {
    &&& s.contains(sigma)
    &&& s.contains(tau)
    &&& tau.len() == sigma.len() + 1
    &&& is_face(sigma, tau)
    &&& forall|t: Seq<usize>|
        #![trigger s.contains(t)]
        s.contains(t) && t.len() == sigma.len() + 1 && is_face(sigma, t) ==> t == tau
}

/// `sigma` is a free face of `s`.
pub open spec fn is_free_face(s: Set<Seq<usize>>, sigma: Seq<usize>) -> bool {
    exists|tau: Seq<usize>| is_free_pair(s, sigma, tau)
}

/// `s` has a free face.
pub open spec fn has_free_face(s: Set<Seq<usize>>) -> bool {
    exists|sigma: Seq<usize>, tau: Seq<usize>| is_free_pair(s, sigma, tau)
}

/// `(sigma, tau)` is a free pair whose free face has the least dimension among all
/// free faces of `s`.
pub open spec fn is_lowest_free_pair(s: Set<Seq<usize>>, sigma: Seq<usize>, tau: Seq<usize>) -> bool {
    &&& is_free_pair(s, sigma, tau)
    &&& forall|a: Seq<usize>, b: Seq<usize>| is_free_pair(s, a, b) ==> a.len() >= sigma.len()
}

/// The result of removing the pairs of `ps`, in order, from `s`.
pub open spec fn apply_collapses(s: Set<Seq<usize>>, ps: Seq<(Seq<usize>, Seq<usize>)>) -> Set<
    Seq<usize>,
>
    decreases ps.len(),
{
    if ps.len() == 0 {
        s
    } else {
        apply_collapses(s, ps.drop_last()).remove(ps.last().0).remove(ps.last().1)
    }
}

/// Each pair of `ps` is a lowest free pair of what is left of `s` when it is removed.
pub open spec fn is_collapse_sequence(s: Set<Seq<usize>>, ps: Seq<(Seq<usize>, Seq<usize>)>) -> bool {
    forall|i: int|
        0 <= i < ps.len() ==> is_lowest_free_pair(
            apply_collapses(s, ps.take(i)),
            (#[trigger] ps[i]).0,
            ps[i].1,
        )
}

/// The vertex lists held by a vector of pairs of vectors.
pub open spec fn pair_views(ps: Seq<(Vec<usize>, Vec<usize>)>) -> Seq<(Seq<usize>, Seq<usize>)> {
    ps.map_values(|p: (Vec<usize>, Vec<usize>)| (p.0@, p.1@))
}

/// The closed neighbourhood of `v` in the 1-skeleton of `s` is contained in that of `w`.
pub open spec fn nbhd_within(s: Set<Seq<usize>>, v: usize, w: usize) -> bool {
    forall|u: usize| (u == v || adjacent(s, v, u)) ==> (u == w || adjacent(s, w, u))
}

/// `v` is a vertex dominated by some other vertex of `s`.
pub open spec fn is_dominated(s: Set<Seq<usize>>, v: usize) -> bool {
    &&& is_vertex(s, v)
    &&& exists|w: usize| is_vertex(s, w) && w != v && #[trigger] nbhd_within(s, v, w)
}

/// The result of removing, in order, each vertex of `vs` with every simplex containing it.
pub open spec fn apply_vertex_removals(s: Set<Seq<usize>>, vs: Seq<usize>) -> Set<Seq<usize>>
    decreases vs.len(),
{
    if vs.len() == 0 {
        s
    } else {
        apply_vertex_removals(s, vs.drop_last()).filter(avoids(vs.last()))
    }
}

/// Each vertex of `vs` is dominated in what is left of `s` when it is removed, and that
/// complex then has more than one vertex.
pub open spec fn is_strong_sequence(s: Set<Seq<usize>>, vs: Seq<usize>) -> bool {
    forall|i: int|
        0 <= i < vs.len() ==> {
            &&& is_dominated(apply_vertex_removals(s, vs.take(i)), #[trigger] vs[i])
            &&& dim_count(apply_vertex_removals(s, vs.take(i)), 0) > 1
        }
}

/// Dropping the last vertex of a strong collapse sequence leaves a strong collapse
/// sequence.
pub proof fn lemma_strong_sequence_drop_last(s: Set<Seq<usize>>, vs: Seq<usize>)
    requires
        is_strong_sequence(s, vs),
        vs.len() > 0,
    ensures
        is_strong_sequence(s, vs.drop_last()),
        vs.take(vs.len() - 1) == vs.drop_last(),
        is_dominated(apply_vertex_removals(s, vs.drop_last()), vs.last()),
{
    let d = vs.drop_last();
    assert forall|i: int| 0 <= i < d.len() implies {
        &&& is_dominated(apply_vertex_removals(s, d.take(i)), #[trigger] d[i])
        &&& dim_count(apply_vertex_removals(s, d.take(i)), 0) > 1
    } by {
        assert(d.take(i) =~= vs.take(i));
        assert(d[i] == vs[i]);
        assert(is_dominated(apply_vertex_removals(s, vs.take(i)), vs[i]));
    }
    assert(vs.take(vs.len() - 1) =~= d);
    assert(is_dominated(apply_vertex_removals(s, vs.take(vs.len() - 1)), vs[vs.len() - 1]));
}

/// `Σ_{k < n} (−1)^k · (number of k-dimensional members of s)`.
pub open spec fn alt_count(s: Set<Seq<usize>>, n: nat) -> int
    decreases n,
{
    if n == 0 {
        0
    } else {
        alt_count(s, (n - 1) as nat) + sign(n - 1) * dim_count(s, n - 1)
    }
}

/// Result of a collapse.
#[derive(Debug, Clone)]
pub struct CollapseResult {
    /// The collapsed complex.
    pub complex: SimplicialComplex,
    /// Number of collapse steps performed.
    pub steps: usize,
    /// Whether the complex was reduced to a single vertex.
    pub is_collapsible: bool,
    /// The removed pairs, in order: (free face, coface) for an elementary collapse,
    /// (`[v]`, a removed simplex containing `v`) for a strong collapse.
    pub removed_pairs: Vec<(Vec<usize>, Vec<usize>)>,
}

/// Removing a free face and its coface keeps a complex closed under faces.
pub proof fn lemma_free_pair_removal_closed(s: Set<Seq<usize>>, sigma: Seq<usize>, tau: Seq<usize>)
    requires
        face_closed(s),
        all_valid(s),
        is_free_pair(s, sigma, tau),
    ensures
        face_closed(s.remove(sigma).remove(tau)),
{
    let s2 = s.remove(sigma).remove(tau);
    assert forall|r: Seq<usize>, i: int|
        s2.contains(r) && r.len() > 1 && 0 <= i < r.len() implies s2.contains(
        #[trigger] r.remove(i)) by {
        let r2 = r.remove(i);
        assert(s.contains(r));
        assert(valid_simplex(r));
        assert(s.contains(r2));
        lemma_remove_sorted(r, i);
        if r2 == sigma {
            assert(is_face(sigma, r));
            assert(s.contains(r));
            assert(r == tau);
        }
        if r2 == tau {
            // an entry of tau outside sigma
            let y_idx = choose_outside(sigma, tau);
            let y = tau[y_idx];
            assert(r2.contains(y));
            let ky = choose|k: int| 0 <= k < r2.len() && r2[k] == y;
            let m = if ky < i { ky } else { ky + 1 };
            assert(r[m] == y);
            lemma_removed_entry_gone(r, i);
            assert(m != i);
            let r3 = r.remove(m);
            lemma_remove_sorted(r, m);
            assert(s.contains(r3));
            assert forall|a: int| 0 <= a < sigma.len() implies r3.contains(#[trigger] sigma[a]) by {
                assert(tau.contains(sigma[a]));
                let q = choose|q: int| 0 <= q < tau.len() && tau[q] == sigma[a];
                assert(r2.contains(tau[q]));
                let q2 = choose|q2: int| 0 <= q2 < r2.len() && r2[q2] == tau[q];
                let q3 = if q2 < i { q2 } else { q2 + 1 };
                assert(r[q3] == sigma[a]);
                assert(r.contains(sigma[a]));
                assert(sigma[a] != y);
                lemma_removed_keeps(r, m, sigma[a]);
            }
            assert(r3 == tau);
            lemma_removed_keeps(r, m, r[i]);
            assert(r3.contains(r[i]));
        }
    }
}

/// The alternating sum of an f-vector is the alternating count of its complex.
pub proof fn lemma_alt_sum_is_alt_count(s: Set<Seq<usize>>, f: Seq<usize>, m: int)
    requires
        is_f_vector(s, f),
        0 <= m <= f.len(),
    ensures
        alt_sum(f.take(m)) == alt_count(s, m as nat),
    decreases m,
{
    if m > 0 {
        lemma_alt_sum_is_alt_count(s, f, m - 1);
        assert(f.take(m).drop_last() =~= f.take(m - 1));
        assert(f[m - 1] == dim_count(s, m - 1));
    } else {
        assert(f.take(0) =~= Seq::<usize>::empty());
    }
}

/// Dimensions beyond the f-vector contribute nothing to the alternating count.
pub proof fn lemma_alt_count_stable(s: Set<Seq<usize>>, f: Seq<usize>, n: nat)
    requires
        is_f_vector(s, f),
        n >= f.len(),
    ensures
        alt_count(s, n) == alt_count(s, f.len()),
    decreases n,
{
    if n > f.len() {
        lemma_alt_count_stable(s, f, (n - 1) as nat);
        assert(s.filter(len_is(n - 1 + 1)) =~= Set::<Seq<usize>>::empty());
    }
}

/// The Euler characteristic as an alternating count: for `n` at least the length of
/// the f-vector, `alt_count(s, n)` is the alternating sum of the f-vector.
pub proof fn lemma_euler_as_count(s: Set<Seq<usize>>, f: Seq<usize>, n: nat)
    requires
        is_f_vector(s, f),
        n >= f.len(),
    ensures
        alt_sum(f) == alt_count(s, n),
{
    lemma_alt_sum_is_alt_count(s, f, f.len() as int);
    assert(f.take(f.len() as int) =~= f);
    lemma_alt_count_stable(s, f, n);
}

/// Removing a simplex lowers the count of its dimension by one.
proof fn lemma_dim_count_remove(s: Set<Seq<usize>>, a: Seq<usize>, k: int)
    requires
        s.finite(),
        s.contains(a),
    ensures
        dim_count(s.remove(a), k) == if a.len() == k + 1 {
            dim_count(s, k) - 1
        } else {
            dim_count(s, k) as int
        },
{
    let p = len_is(k + 1);
    vstd::set_lib::lemma_set_subset_finite(s, s.filter(p));
    if a.len() == k + 1 {
        assert(s.remove(a).filter(p) =~= s.filter(p).remove(a));
        assert(s.filter(p).contains(a));
    } else {
        assert(s.remove(a).filter(p) =~= s.filter(p));
    }
}

/// The alternating count after removing a simplex `a`.
proof fn lemma_alt_count_remove(s: Set<Seq<usize>>, a: Seq<usize>, n: nat)
    requires
        s.finite(),
        s.contains(a),
        a.len() >= 1,
    ensures
        alt_count(s.remove(a), n) == alt_count(s, n) - if n >= a.len() {
            sign(a.len() - 1)
        } else {
            0
        },
    decreases n,
{
    if n > 0 {
        lemma_alt_count_remove(s, a, (n - 1) as nat);
        lemma_dim_count_remove(s, a, n - 1);
        if a.len() == n {
            let x = dim_count(s, n - 1) as int;
            if (n - 1) % 2 == 0 {
                assert(sign(n - 1) * (x - 1) == sign(n - 1) * x - 1);
            } else {
                assert(sign(n - 1) * (x - 1) == sign(n - 1) * x + 1);
            }
        }
    }
}

/// Removing two members whose sizes differ by one leaves the alternating count
/// unchanged once it covers both dimensions.
pub proof fn lemma_alt_count_remove_two(s: Set<Seq<usize>>, a: Seq<usize>, b: Seq<usize>, n: nat)
    requires
        s.finite(),
        s.contains(a),
        s.contains(b),
        a.len() >= 1,
        b.len() == a.len() + 1,
        n >= b.len(),
    ensures
        alt_count(s.remove(a).remove(b), n) == alt_count(s, n),
{
    lemma_alt_count_remove(s, a, n);
    lemma_alt_count_remove(s.remove(a), b, n);
    let d = a.len() - 1;
    if d % 2 == 0 {
        assert(sign(d) == 1 && sign(d + 1) == -1);
    } else {
        assert(sign(d) == -1 && sign(d + 1) == 1);
    }
}

/// Removing a free pair leaves the alternating count unchanged once it covers both
/// dimensions.
pub proof fn lemma_alt_count_remove_pair(s: Set<Seq<usize>>, sigma: Seq<usize>, tau: Seq<usize>, n: nat)
    requires
        s.finite(),
        all_valid(s),
        is_free_pair(s, sigma, tau),
        n >= tau.len(),
    ensures
        alt_count(s.remove(sigma).remove(tau), n) == alt_count(s, n),
{
    assert(valid_simplex(sigma));
    lemma_alt_count_remove_two(s, sigma, tau, n);
}


/// Find a free face of the lowest dimension that has one, with its unique coface.
fn find_free_face(complex: &SimplicialComplex) -> (r: Option<(Simplex, Simplex)>)
    requires
        complex.wf(),
    ensures
        r is None ==> !has_free_face(complex@),
        r matches Some(p) ==> is_lowest_free_pair(complex@, p.0@, p.1@) && p.0.wf() && p.1.wf(),
{
    let ghost s = complex@;
    let max_dim = complex.max_dimension();
    if max_dim == 0 {
        proof {
            assert forall|a: Seq<usize>, b: Seq<usize>| !is_free_pair(s, a, b) by {
                if is_free_pair(s, a, b) {
                    assert(valid_simplex(a));
                }
            }
        }
        return None;
    }
    proof {
        assert forall|a: Seq<usize>, b: Seq<usize>| is_free_pair(s, a, b) implies a.len() >= 1 by {
            assert(valid_simplex(a));
        }
    }
    for dim in 0..max_dim
        invariant
            complex.wf(),
            s == complex@,
            forall|t: Seq<usize>| s.contains(t) ==> t.len() <= max_dim + 1,
            forall|a: Seq<usize>, b: Seq<usize>| is_free_pair(s, a, b) ==> a.len() >= dim + 1,
    {
        let simplices = complex.simplices_of_dimension(dim);
        let ghost kv = ref_views(simplices@);
        let n = simplices.len();
        for i in 0..n
            invariant
                complex.wf(),
                s == complex@,
                dim < max_dim,
                n == simplices@.len(),
                kv == ref_views(simplices@),
                kv.to_set() == s.filter(len_is(dim + 1)),
                forall|a: Seq<usize>, b: Seq<usize>| is_free_pair(s, a, b) ==> a.len() >= dim + 1,
                forall|q: int| 0 <= q < i ==> !is_free_face(s, #[trigger] kv[q]),
        {
            let sigma = simplices[i];
            assert(kv[i as int] == sigma@);
            assert(kv.to_set().contains(sigma@));
            assert(s.filter(len_is(dim + 1)).contains(sigma@));
            let all = complex.simplices_of_dimension(dim + 1);
            let ghost av = ref_views(all@);
            let ghost p = |t: Seq<usize>| is_face(sigma@, t);
            let m = all.len();
            let mut cofaces: Vec<&Simplex> = Vec::new();
            for j in 0..m
                invariant
                    m == all@.len(),
                    av == ref_views(all@),
                    p == (|t: Seq<usize>| is_face(sigma@, t)),
                    ref_views(cofaces@) == av.take(j as int).filter(p),
            {
                assert(av[j as int] == all@[j as int]@);
                assert(av.take(j + 1) =~= av.take(j as int).push(all@[j as int]@));
                proof {
                    av.take(j as int).lemma_filter_push(all@[j as int]@, p);
                }
                if sigma.is_face_of(all[j]) {
                    let ghost before = cofaces@;
                    cofaces.push(all[j]);
                    assert(ref_views(cofaces@) =~= ref_views(before).push(all@[j as int]@));
                }
            }
            assert(av.take(m as int) =~= av);
            let ghost cv = ref_views(cofaces@);
            proof {
                lemma_filter_no_dup(av, p);
                crate::counting::lemma_filter_to_set(av, p);
                assert(cv.to_set() == s.filter(len_is(dim + 2)).filter(p));
            }
            if cofaces.len() == 1 {
                let a = sigma.duplicate();
                let b = cofaces[0].duplicate();
                proof {
                    assert(cv[0] == b@);
                    assert(cv.to_set().contains(b@));
                    assert(s.contains(b@));
                    assert(valid_simplex(b@));
                    assert forall|t: Seq<usize>|
                        #![trigger s.contains(t)]
                        s.contains(t) && t.len() == sigma@.len() + 1 && is_face(sigma@, t) implies t
                        == b@ by {
                        assert(s.filter(len_is(dim + 2)).filter(p).contains(t));
                        assert(cv.to_set().contains(t));
                        let q = choose|q: int| 0 <= q < cv.len() && cv[q] == t;
                    }
                    assert(is_free_pair(s, a@, b@));
                }
                return Some((a, b));
            }
            proof {
                assert forall|b: Seq<usize>| !is_free_pair(s, kv[i as int], b) by {
                    if is_free_pair(s, kv[i as int], b) {
                        assert(s.filter(len_is(dim + 2)).filter(p).contains(b));
                        assert(cv.to_set().contains(b));
                        let q = choose|q: int| 0 <= q < cv.len() && cv[q] == b;
                        if cv.len() >= 2 {
                            let other = if q == 0 { 1int } else { 0int };
                            assert(cv.to_set().contains(cv[other]));
                            assert(s.filter(len_is(dim + 2)).filter(p).contains(cv[other]));
                            assert(cv[other] == b);
                            assert(cv[other] != cv[q]);
                        }
                    }
                }
            }
        }
        proof {
            assert forall|a: Seq<usize>, b: Seq<usize>| is_free_pair(s, a, b) implies a.len() >= dim + 2 by {
                if a.len() == dim + 1 {
                    assert(s.filter(len_is(dim + 1)).contains(a));
                    assert(kv.to_set().contains(a));
                    let q = choose|q: int| 0 <= q < kv.len() && kv[q] == a;
                    assert(!is_free_face(s, kv[q]));
                }
            }
        }
    }
    proof {
        assert forall|a: Seq<usize>, b: Seq<usize>| !is_free_pair(s, a, b) by {
            if is_free_pair(s, a, b) {
                assert(s.contains(b));
            }
        }
    }
    None
}

/// Collapse repeatedly: while a free face remains, remove one of the lowest dimension
/// together with its coface. The complex is collapsible when a single vertex is left.
pub fn collapse(complex: &SimplicialComplex) -> (result: CollapseResult)
    requires
        complex.wf(),
    ensures
        result.complex.wf(),
        is_collapse_sequence(complex@, pair_views(result.removed_pairs@)),
        result.complex@ == apply_collapses(complex@, pair_views(result.removed_pairs@)),
        !has_free_face(result.complex@),
        result.steps == result.removed_pairs@.len(),
        result.complex@.len() + 2 * result.steps == complex@.len(),
        result.is_collapsible == (result.complex@.len() == 1 && dim_count(result.complex@, 0) == 1),
        alt_sum(result.complex.f()) == alt_sum(complex.f()),
{
    let total = complex.num_simplices();
    let mut current = complex.duplicate();
    let mut steps: usize = 0;
    let mut removed_pairs: Vec<(Vec<usize>, Vec<usize>)> = Vec::new();
    let ghost s0 = complex@;
    let ghost n0 = complex.f().len();
    proof {
        complex.lemma_f();
        assert(pair_views(removed_pairs@) =~= Seq::<(Seq<usize>, Seq<usize>)>::empty());
    }
    loop
        invariant
            current.wf(),
            s0 == complex@,
            is_f_vector(s0, complex.f()),
            n0 == complex.f().len(),
            forall|t: Seq<usize>| current@.contains(t) ==> t.len() <= n0,
            alt_count(current@, n0) == alt_count(s0, n0),
            current@ == apply_collapses(s0, pair_views(removed_pairs@)),
            is_collapse_sequence(s0, pair_views(removed_pairs@)),
            steps == removed_pairs@.len(),
            current@.len() + 2 * steps == s0.len(),
            s0.len() == total,
        ensures
            !has_free_face(current@),
        decreases current@.len(),
    {
        match find_free_face(&current) {
            None => {
                break;
            },
            Some(pair) => {
                let (sigma, tau) = pair;
                let ghost before = current@;
                let ghost ps = pair_views(removed_pairs@);
                removed_pairs.push((sigma.to_vec(), tau.to_vec()));
                proof {
                    lemma_free_pair_removal_closed(before, sigma@, tau@);
                    lemma_alt_count_remove_pair(before, sigma@, tau@, n0);
                }
                current.remove_simplex(&sigma);
                current.remove_simplex(&tau);
                assert(before.remove(sigma@).len() == before.len() - 1);
                assert(before.remove(sigma@).contains(tau@));
                assert(current@.len() == before.len() - 2);
                steps = steps + 1;
                proof {
                    let ps2 = pair_views(removed_pairs@);
                    assert(ps2 =~= ps.push((sigma@, tau@)));
                    assert(ps2.drop_last() =~= ps);
                    assert(current@ == apply_collapses(s0, ps2));
                    assert forall|i: int| 0 <= i < ps2.len() implies is_lowest_free_pair(
                        apply_collapses(s0, ps2.take(i)),
                        (#[trigger] ps2[i]).0,
                        ps2[i].1,
                    ) by {
                        if i < ps.len() {
                            assert(ps2.take(i) =~= ps.take(i));
                            assert(ps2[i] == ps[i]);
                        } else {
                            assert(ps2.take(i) =~= ps);
                        }
                    }
                    assert(before.remove(sigma@).len() == before.len() - 1);
                }
            },
        }
    }
    let is_collapsible = current.num_simplices() == 1 && current.num_vertices() == 1;
    proof {
        current.lemma_f();
        let fc = current.f();
        if fc.len() > 0 {
            let t = choose|t: Seq<usize>| current@.contains(t) && t.len() == fc.len();
        }
        lemma_euler_as_count(current@, fc, n0);
        lemma_euler_as_count(s0, complex.f(), n0);
    }
    CollapseResult { complex: current, steps, is_collapsible, removed_pairs }
}


/// The vertices removed by a strong collapse, read off its recorded pairs.
pub open spec fn removed_vertices(ps: Seq<(Seq<usize>, Seq<usize>)>) -> Seq<usize> {
    ps.map_values(|p: (Seq<usize>, Seq<usize>)| p.0[0])
}

/// Is every entry of `a` an entry of `b`?
fn all_in(a: &Vec<usize>, b: &Vec<usize>) -> (r: bool)
    ensures
        r == forall|u: usize| a@.contains(u) ==> b@.contains(u),
{
    let n = a.len();
    for i in 0..n
        invariant
            n == a@.len(),
            forall|k: int| 0 <= k < i ==> b@.contains(#[trigger] a@[k]),
    {
        if !crate::simplex::vec_contains(b, a[i]) {
            assert(a@.contains(a@[i as int]));
            return false;
        }
    }
    assert forall|u: usize| a@.contains(u) implies b@.contains(u) by {
        let k = choose|k: int| 0 <= k < n && a@[k] == u;
        assert(b@.contains(a@[k]));
    }
    true
}

/// Find a vertex dominated by another, given every vertex and its closed neighbourhood.
fn find_dominated(verts: &Vec<usize>, nbhds: &Vec<Vec<usize>>, Ghost(s): Ghost<Set<Seq<usize>>>) -> (r: Option<usize>)
    requires
        verts@.len() == nbhds@.len(),
        verts@.no_duplicates(),
        forall|x: usize| verts@.contains(x) <==> is_vertex(s, x),
        forall|k: int, u: usize|
            0 <= k < nbhds@.len() ==> (#[trigger] nbhds@[k]@.contains(u) <==> (u == verts@[k]
                || adjacent(s, verts@[k], u))),
    ensures
        r is None ==> forall|v: usize| !is_dominated(s, v),
        r matches Some(v) ==> is_dominated(s, v),
{
    let n = verts.len();
    for i in 0..n
        invariant
            n == verts@.len(),
            n == nbhds@.len(),
            verts@.no_duplicates(),
            forall|x: usize| verts@.contains(x) <==> is_vertex(s, x),
            forall|k: int, u: usize|
                0 <= k < nbhds@.len() ==> (#[trigger] nbhds@[k]@.contains(u) <==> (u == verts@[k]
                    || adjacent(s, verts@[k], u))),
            forall|k: int| 0 <= k < i ==> !is_dominated(s, #[trigger] verts@[k]),
    {
        for j in 0..n
            invariant
                n == verts@.len(),
                n == nbhds@.len(),
                i < n,
                verts@.no_duplicates(),
                forall|x: usize| verts@.contains(x) <==> is_vertex(s, x),
                forall|k: int, u: usize|
                    0 <= k < nbhds@.len() ==> (#[trigger] nbhds@[k]@.contains(u) <==> (u
                        == verts@[k] || adjacent(s, verts@[k], u))),
                forall|k: int|
                    0 <= k < j ==> !(verts@[i as int] != verts@[k] && #[trigger] nbhd_within(
                        s,
                        verts@[i as int],
                        verts@[k],
                    )),
        {
            if j != i && all_in(&nbhds[i], &nbhds[j]) {
                proof {
                    let v = verts@[i as int];
                    let w = verts@[j as int];
                    assert(verts@.contains(v));
                    assert(verts@.contains(w));
                    assert forall|u: usize| (u == v || adjacent(s, v, u)) implies (u == w || adjacent(s, w, u)) by {
                        assert(nbhds@[i as int]@.contains(u));
                        assert(nbhds@[j as int]@.contains(u));
                    }
                    assert(nbhd_within(s, v, w));
                }
                return Some(verts[i]);
            }
            proof {
                if j != i {
                    let v = verts@[i as int];
                    let w = verts@[j as int];
                    assert(v != w);
                    if nbhd_within(s, v, w) {
                        assert forall|u: usize| nbhds@[i as int]@.contains(u) implies nbhds@[j as int]@.contains(u) by {
                        }
                    }
                }
            }
        }
        proof {
            let v = verts@[i as int];
            if is_dominated(s, v) {
                let w = choose|w: usize| is_vertex(s, w) && w != v && #[trigger] nbhd_within(s, v, w);
                assert(verts@.contains(w));
                let k = choose|k: int| 0 <= k < n && verts@[k] == w;
                assert(!(verts@[i as int] != verts@[k] && nbhd_within(s, verts@[i as int], verts@[k])));
            }
        }
    }
    proof {
        assert forall|v: usize| !is_dominated(s, v) by {
            if is_dominated(s, v) {
                assert(verts@.contains(v));
                let k = choose|k: int| 0 <= k < n && verts@[k] == v;
                assert(!is_dominated(s, verts@[k]));
            }
        }
    }
    None
}

/// One step of a strong collapse: removing a dominated vertex `v` of what is left, and
/// recording it with a removed simplex `last` through it, extends the record.
proof fn lemma_strong_step(
    s0: Set<Seq<usize>>,
    ps: Seq<(Seq<usize>, Seq<usize>)>,
    v: usize,
    last: Seq<usize>,
)
    requires
        is_strong_sequence(s0, removed_vertices(ps)),
        forall|i: int|
            0 <= i < ps.len() ==> {
                let p = #[trigger] ps[i];
                let w = removed_vertices(ps)[i];
                &&& p.0 == seq![w]
                &&& apply_vertex_removals(s0, removed_vertices(ps).take(i)).contains(p.1)
                &&& p.1.contains(w)
            },
        is_dominated(apply_vertex_removals(s0, removed_vertices(ps)), v),
        dim_count(apply_vertex_removals(s0, removed_vertices(ps)), 0) > 1,
        apply_vertex_removals(s0, removed_vertices(ps)).contains(last),
        last.contains(v),
    ensures
        removed_vertices(ps.push((seq![v], last))) == removed_vertices(ps).push(v),
        apply_vertex_removals(s0, removed_vertices(ps.push((seq![v], last)))) == apply_vertex_removals(
            s0,
            removed_vertices(ps),
        ).filter(avoids(v)),
        is_strong_sequence(s0, removed_vertices(ps.push((seq![v], last)))),
        forall|i: int|
            0 <= i < ps.len() + 1 ==> {
                let p = #[trigger] ps.push((seq![v], last))[i];
                let w = removed_vertices(ps.push((seq![v], last)))[i];
                &&& p.0 == seq![w]
                &&& apply_vertex_removals(
                    s0,
                    removed_vertices(ps.push((seq![v], last))).take(i),
                ).contains(p.1)
                &&& p.1.contains(w)
            },
{
    let rv = removed_vertices(ps);
    let ps2 = ps.push((seq![v], last));
    let rv2 = removed_vertices(ps2);
    assert(seq![v][0] == v);
    assert(rv2 =~= rv.push(v));
    assert(rv2.drop_last() =~= rv);
    assert forall|i: int| 0 <= i < rv2.len() implies {
        &&& is_dominated(apply_vertex_removals(s0, rv2.take(i)), #[trigger] rv2[i])
        &&& dim_count(apply_vertex_removals(s0, rv2.take(i)), 0) > 1
    } by {
        if i < rv.len() {
            assert(rv2.take(i) =~= rv.take(i));
            assert(rv2[i] == rv[i]);
        } else {
            assert(rv2.take(i) =~= rv);
        }
    }
    assert forall|i: int| 0 <= i < ps2.len() implies {
        let p = #[trigger] ps2[i];
        let w = rv2[i];
        &&& p.0 == seq![w]
        &&& apply_vertex_removals(s0, rv2.take(i)).contains(p.1)
        &&& p.1.contains(w)
    } by {
        if i < ps.len() {
            assert(rv2.take(i) =~= rv.take(i));
            assert(ps2[i] == ps[i]);
            assert(rv2[i] == rv[i]);
        } else {
            assert(rv2.take(i) =~= rv);
        }
    }
}

/// Strong collapse: while the complex has more than one vertex and some vertex is
/// dominated by another, remove such a vertex together with every simplex containing
/// it. The complex is collapsible when a single vertex is left.
pub fn strong_collapse(complex: &SimplicialComplex) -> (result: CollapseResult)
    requires
        complex.wf(),
    ensures
        result.complex.wf(),
        is_strong_sequence(complex@, removed_vertices(pair_views(result.removed_pairs@))),
        result.complex@ == apply_vertex_removals(
            complex@,
            removed_vertices(pair_views(result.removed_pairs@)),
        ),
        forall|i: int|
            0 <= i < result.removed_pairs@.len() ==> {
                let p = #[trigger] pair_views(result.removed_pairs@)[i];
                let v = removed_vertices(pair_views(result.removed_pairs@))[i];
                &&& p.0 == seq![v]
                &&& apply_vertex_removals(
                    complex@,
                    removed_vertices(pair_views(result.removed_pairs@)).take(i),
                ).contains(p.1)
                &&& p.1.contains(v)
            },
        dim_count(result.complex@, 0) <= 1 || forall|v: usize| !is_dominated(result.complex@, v),
        result.steps == result.removed_pairs@.len(),
        result.is_collapsible == (result.complex@.len() == 1 && dim_count(result.complex@, 0) == 1),
        is_flag(complex@) ==> alt_sum(result.complex.f()) == alt_sum(complex.f()),
        has_apex(complex@) ==> result.is_collapsible,
{
    let total = complex.num_simplices();
    let mut current = complex.duplicate();
    let mut steps: usize = 0;
    let mut removed_pairs: Vec<(Vec<usize>, Vec<usize>)> = Vec::new();
    let ghost s0 = complex@;
    assert(removed_vertices(pair_views(removed_pairs@)) =~= Seq::<usize>::empty());
    loop
        invariant
            current.wf(),
            s0 == complex@,
            s0.len() == total,
            current@.len() + steps <= s0.len(),
            steps == removed_pairs@.len(),
            current@ == apply_vertex_removals(s0, removed_vertices(pair_views(removed_pairs@))),
            is_strong_sequence(s0, removed_vertices(pair_views(removed_pairs@))),
            forall|i: int|
                0 <= i < removed_pairs@.len() ==> {
                    let p = #[trigger] pair_views(removed_pairs@)[i];
                    let v = removed_vertices(pair_views(removed_pairs@))[i];
                    &&& p.0 == seq![v]
                    &&& apply_vertex_removals(
                        s0,
                        removed_vertices(pair_views(removed_pairs@)).take(i),
                    ).contains(p.1)
                    &&& p.1.contains(v)
                },
        ensures
            dim_count(current@, 0) <= 1 || forall|v: usize| !is_dominated(current@, v),
        decreases current@.len(),
    {
        let verts = current.vertex_list();
        let nv = verts.len();
        if nv <= 1 {
            break;
        }
        let mut nbhds: Vec<Vec<usize>> = Vec::new();
        for i in 0..nv
            invariant
                nv == verts@.len(),
                current.wf(),
                nbhds@.len() == i,
                forall|k: int, u: usize|
                    0 <= k < i ==> (#[trigger] nbhds@[k]@.contains(u) <==> (u == verts@[k]
                        || adjacent(current@, verts@[k], u))),
        {
            nbhds.push(current.closed_neighborhood(verts[i]));
        }
        let dominated = find_dominated(&verts, &nbhds, Ghost(current@));
        match dominated {
            None => {
                break;
            },
            Some(v) => {
                let ghost before = current@;
                let ghost ps = pair_views(removed_pairs@);
                let ghost rv = removed_vertices(ps);
                assert(is_vertex(before, v));
                let removed = current.remove_containing(v);
                proof {
                    assert(seq![v][0] == v);
                    assert(seq![v].contains(v));
                    assert(before.filter(touches(v)).contains(seq![v]));
                    assert(comp_views(removed@).to_set().contains(seq![v]));
                }
                let last = removed[removed.len() - 1].clone();
                assert(last@ =~= removed@[removed.len() - 1]@);
                let mut first: Vec<usize> = Vec::new();
                first.push(v);
                removed_pairs.push((first, last));
                proof {
                    let lv = comp_views(removed@)[removed@.len() - 1];
                    assert(lv == last@);
                    assert(comp_views(removed@).to_set().contains(lv));
                    assert(before.filter(touches(v)).contains(lv));
                    assert(seq![v] =~= first@);
                    let ps2 = pair_views(removed_pairs@);
                    assert(ps2 =~= ps.push((seq![v], last@)));
                    lemma_strong_step(s0, ps, v, last@);
                    assert(before.filter(avoids(v)).subset_of(before.remove(seq![v])));
                    vstd::set_lib::lemma_len_subset(before.filter(avoids(v)), before.remove(seq![v]));
                    assert(seq![v][0] == v);
                }
                steps = steps + 1;
            },
        }
    }
    proof {
        if has_apex(s0) {
            lemma_cone_strongly_collapsible(s0, removed_vertices(pair_views(removed_pairs@)));
        }
        if is_flag(s0) {
            let vs = removed_vertices(pair_views(removed_pairs@));
            let n = complex.f().len();
            complex.lemma_f();
            current.lemma_f();
            lemma_strong_collapse_keeps_euler(s0, vs, n);
            lemma_vertex_removals_keep_flag(s0, vs);
            lemma_euler_as_count(s0, complex.f(), n);
            if current.f().len() > 0 {
                let t = choose|t: Seq<usize>| current@.contains(t) && t.len() == current.f().len();
                assert(s0.contains(t));
            }
            lemma_euler_as_count(current@, current.f(), n);
        }
    }
    let is_collapsible = current.num_simplices() == 1 && current.num_vertices() == 1;
    CollapseResult { complex: current, steps, is_collapsible, removed_pairs }
}

/// Some vertex other than `a` shares no edge with `a`.
pub open spec fn misses_some_vertex(s: Set<Seq<usize>>, a: usize) -> bool {
    exists|v: usize| is_vertex(s, v) && v != a && !#[trigger] adjacent(s, a, v)
}

/// Is the complex a cone, with an apex vertex sharing an edge with every other vertex?
/// A complex with a single vertex counts as one; an empty complex does not.
pub fn is_cone(complex: &SimplicialComplex) -> (b: bool)
    requires
        complex.wf(),
    ensures
        b == has_apex(complex@),
{
    let ghost s = complex@;
    let verts = complex.vertex_list();
    let n = verts.len();
    for i in 0..n
        invariant
            n == verts@.len(),
            complex.wf(),
            s == complex@,
            verts@.no_duplicates(),
            forall|x: usize| verts@.contains(x) <==> is_vertex(s, x),
            forall|k: int| 0 <= k < i ==> #[trigger] misses_some_vertex(s, verts@[k]),
    {
        let apex = verts[i];
        let mut all_connected = true;
        let mut j: usize = 0;
        while j < n
            invariant
                n == verts@.len(),
                i < n,
                complex.wf(),
                s == complex@,
                apex == verts@[i as int],
                j <= n,
                all_connected ==> forall|k: int|
                    0 <= k < j && verts@[k] != apex ==> adjacent(s, apex, #[trigger] verts@[k]),
                !all_connected ==> exists|v: usize|
                    is_vertex(s, v) && v != apex && !#[trigger] adjacent(s, apex, v),
                forall|x: usize| verts@.contains(x) <==> is_vertex(s, x),
            decreases n - j,
        {
            let v = verts[j];
            if v != apex && all_connected {
                let (lo, hi) = if apex < v { (apex, v) } else { (v, apex) };
                let e = Simplex::edge(lo, hi);
                if !complex.contains(&e) {
                    all_connected = false;
                    proof {
                        assert(verts@.contains(v));
                        if adjacent(s, apex, v) {
                            let other = if s.contains(seq![apex, v]) { seq![apex, v] } else { seq![v, apex] };
                            assert(valid_simplex(other));
                            if other != e@ {
                                assert(other[0] > other[1] || other =~= e@);
                            }
                        }
                    }
                } else {
                    assert(adjacent(s, apex, v)) by {
                        if apex < v {
                            assert(e@ =~= seq![apex, v]);
                        } else {
                            assert(e@ =~= seq![v, apex]);
                        }
                    }
                }
            }
            j = j + 1;
        }
        if all_connected {
            proof {
                assert(verts@.contains(apex));
                assert forall|v: usize| is_vertex(s, v) && v != apex implies #[trigger] adjacent(s, apex, v) by {
                    assert(verts@.contains(v));
                    let k = choose|k: int| 0 <= k < n && verts@[k] == v;
                    assert(verts@[k] != apex);
                    assert(adjacent(s, apex, verts@[k]));
                }
                assert(is_apex(s, apex));
            }
            return true;
        }
    }
    proof {
        assert forall|apex: usize| !#[trigger] is_apex(s, apex) by {
            if is_vertex(s, apex) {
                assert(verts@.contains(apex));
                let k = choose|k: int| 0 <= k < n && verts@[k] == apex;
                assert(misses_some_vertex(s, verts@[k]));
                let v = choose|v: usize| is_vertex(s, v) && v != apex && !#[trigger] adjacent(s, apex, v);
            }
        }
    }
    false
}

/// A position of `tau` whose entry is not a vertex of `sigma`, when `tau` is a strictly
/// increasing list with more entries than the strictly increasing `sigma`.
proof fn choose_outside(sigma: Seq<usize>, tau: Seq<usize>) -> (j: int)
    requires
        valid_simplex(sigma),
        valid_simplex(tau),
        tau.len() == sigma.len() + 1,
    ensures
        0 <= j < tau.len(),
        !sigma.contains(tau[j]),
{
    if forall|j: int| 0 <= j < tau.len() ==> sigma.contains(#[trigger] tau[j]) {
        lemma_face_len(sigma, tau);
        assert(false);
        0
    } else {
        choose|j: int| 0 <= j < tau.len() && !sigma.contains(#[trigger] tau[j])
    }
}

} // verus!
