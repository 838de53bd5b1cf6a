//! Euler characteristic and Betti number estimates.
//!
//! The Euler characteristic of a complex is the alternating sum of its f-vector,
//! `χ = Σ_k (−1)^k f_k`. The Betti numbers are estimated from boundary counts: for
//! `k ≥ 1`, `β_k = max(0, f_k − r_k − r_{k+1})`, where `r_k` is the smaller of `f_k`
//! and the number of distinct `(k−1)`-faces of `k`-simplices (zero when either
//! dimension is empty), and `β_0` is the number of connected components.
use vstd::prelude::*;
use crate::complex::{dim_count, is_complex, is_f_vector, len_is, ref_views, SimplicialComplex};
use crate::counting::{alt_sum, lemma_push_contains, seq_sum, sign, signed_alt_sum};
use std::cmp::Ordering;
use crate::graph::{components, is_component_partition, is_vertex, num_components};
use crate::simplex::{boundary_of, distinct_simplices, insert_unique, views, Simplex};

verus! {

/// The faces obtained by removing one vertex from a `k`-dimensional member of `s`.
pub open spec fn boundary_faces(s: Set<Seq<usize>>, k: int) -> Set<Seq<usize>> {
    Set::new(
        |t: Seq<usize>|
            exists|x: Seq<usize>, i: int|
                s.contains(x) && x.len() == k + 1 && 0 <= i < x.len() && t == #[trigger] x.remove(i),
    )
}

/// The estimated rank of the boundary map in dimension `k`, for the f-vector `f` of `s`.
pub open spec fn boundary_rank(s: Set<Seq<usize>>, f: Seq<usize>, k: int) -> int {
    if 1 <= k < f.len() && f[k] > 0 && f[k - 1] > 0 {
        if f[k] <= boundary_faces(s, k).len() {
            f[k] as int
        } else {
            boundary_faces(s, k).len() as int
        }
    } else {
        0
    }
}

/// The estimated Betti number in dimension `k`, for `k` at least one.
pub open spec fn betti_estimate(s: Set<Seq<usize>>, f: Seq<usize>, k: int) -> int {
    let b = f[k] - boundary_rank(s, f, k) - boundary_rank(s, f, k + 1);
    if b > 0 {
        b
    } else {
        0
    }
}

/// The Betti numbers reported for a complex with vertex-list set `s` and f-vector `f`:
/// `[0]` for the empty complex; otherwise one entry per dimension, the first being the
/// number of connected components.
pub open spec fn betti_spec(s: Set<Seq<usize>>, f: Seq<usize>) -> Seq<int> {
    if f.len() == 0 {
        seq![0]
    } else {
        Seq::new(
            f.len(),
            |k: int|
                if k == 0 {
                    num_components(s) as int
                } else {
                    betti_estimate(s, f, k)
                },
        )
    }
}

/// Computed topological invariants of a simplicial complex.
#[derive(Debug, Clone)]
pub struct TopologyInvariants {
    /// Euler characteristic.
    pub euler_characteristic: i64,
    /// F-vector: count of simplices by dimension.
    pub f_vector: Vec<usize>,
    /// Betti numbers `β_0, β_1, ...`.
    pub betti_numbers: Vec<usize>,
}

/// The Euler characteristic of a complex.
pub fn euler_characteristic(complex: &SimplicialComplex) -> (chi: i64)
    requires
        complex.wf(),
        complex@.len() <= i64::MAX,
    ensures
        chi == alt_sum(complex.f()),
{
    complex.euler_characteristic()
}

/// The number of distinct faces of `k`-simplices obtained by removing one vertex.
fn boundary_face_count(complex: &SimplicialComplex, k: usize) -> (c: usize)
    requires
        complex.wf(),
        k >= 1,
    ensures
        c == boundary_faces(complex@, k as int).len(),
{
    let ks = complex.simplices_of_dimension(k);
    let ghost kv = ref_views(ks@);
    let ghost s = complex@;
    let n = ks.len();
    let mut set: Vec<Simplex> = Vec::new();
    for i in 0..n
        invariant
            n == ks@.len(),
            kv == ref_views(ks@),
            s == complex@,
            complex.wf(),
            k >= 1,
            kv.to_set() == s.filter(len_is(k + 1)),
            distinct_simplices(set@),
            forall|t: Seq<usize>|
                #[trigger] views(set@).contains(t) <==> exists|q: int, j: int|
                    0 <= q < i && 0 <= j < kv[q].len() && t == #[trigger] kv[q].remove(j),
    {
        let x = ks[i];
        assert(kv[i as int] == x@);
        assert(kv.to_set().contains(x@));
        assert(s.contains(x@));
        assert(x.wf());
        let bd = x.boundary();
        let ghost bv = views(bd@);
        let m = bd.len();
        assert(bv.take(0) =~= Seq::<Seq<usize>>::empty());
        for j in 0..m
            invariant
                m == bd@.len(),
                bv == views(bd@),
                bv == boundary_of(x@),
                forall|q: int| 0 <= q < m ==> (#[trigger] bd@[q]).wf(),
                distinct_simplices(set@),
                forall|t: Seq<usize>|
                    #[trigger] views(set@).contains(t) <==> ((exists|q: int, jj: int|
                        0 <= q < i && 0 <= jj < kv[q].len() && t == #[trigger] kv[q].remove(jj))
                        || bv.take(j as int).contains(t)),
        {
            let ghost prev = set@;
            insert_unique(&mut set, &bd[j]);
            let ghost y = bd@[j as int]@;
            assert(bv[j as int] == y);
            assert(bv.take(j + 1) =~= bv.take(j as int).push(y));
            assert forall|t: Seq<usize>|
                #[trigger] views(set@).contains(t) <==> ((exists|q: int, jj: int|
                    0 <= q < i && 0 <= jj < kv[q].len() && t == #[trigger] kv[q].remove(jj))
                    || bv.take(j + 1).contains(t)) by {
                lemma_push_contains(bv.take(j as int), y, t);
                if !views(prev).contains(y) {
                    lemma_push_contains(views(prev), y, t);
                }
            }
        }
        assert(bv.take(m as int) =~= bv);
        assert(x@.len() == k + 1) by {
            assert(s.filter(len_is(k + 1)).contains(x@));
        }
        assert(bv.len() == kv[i as int].len());
        assert forall|t: Seq<usize>|
            #[trigger] views(set@).contains(t) <==> exists|q: int, jj: int|
                0 <= q < i + 1 && 0 <= jj < kv[q].len() && t == #[trigger] kv[q].remove(jj) by {
            assert(views(set@).contains(t) <==> ((exists|q: int, jj: int|
                0 <= q < i && 0 <= jj < kv[q].len() && t == #[trigger] kv[q].remove(jj))
                || bv.take(m as int).contains(t)));
            if bv.contains(t) {
                let jj = choose|jj: int| 0 <= jj < bv.len() && bv[jj] == t;
                assert(t == kv[i as int].remove(jj));
            }
            if exists|q: int, jj: int|
                0 <= q < i + 1 && 0 <= jj < kv[q].len() && t == #[trigger] kv[q].remove(jj) {
                let (q, jj) = choose|q: int, jj: int|
                    0 <= q < i + 1 && 0 <= jj < kv[q].len() && t == #[trigger] kv[q].remove(jj);
                if q == i {
                    assert(bv[jj] == t);
                }
            }
        }
    }
    proof {
        let vs = views(set@);
        assert forall|t: Seq<usize>| vs.to_set().contains(t) <==> boundary_faces(s, k as int).contains(t) by {
            if vs.contains(t) {
                let (q, jj) = choose|q: int, jj: int|
                    0 <= q < n && 0 <= jj < kv[q].len() && t == #[trigger] kv[q].remove(jj);
                assert(kv.to_set().contains(kv[q]));
                assert(s.filter(len_is(k + 1)).contains(kv[q]));
            }
            if boundary_faces(s, k as int).contains(t) {
                let (x, jj) = choose|x: Seq<usize>, jj: int|
                    s.contains(x) && x.len() == k + 1 && 0 <= jj < x.len() && t == #[trigger] x.remove(jj);
                assert(s.filter(len_is(k + 1)).contains(x));
                assert(kv.to_set().contains(x));
                let q = choose|q: int| 0 <= q < kv.len() && kv[q] == x;
                assert(t == kv[q].remove(jj));
            }
        }
        assert(vs.to_set() =~= boundary_faces(s, k as int));
        vs.unique_seq_to_set();
    }
    set.len()
}

/// In a complex, a dimension below the top that has simplices has simplices one
/// dimension lower too.
proof fn lemma_lower_dimension_nonempty(s: Set<Seq<usize>>, f: Seq<usize>, j: int)
    requires
        is_complex(s),
        is_f_vector(s, f),
        1 <= j < f.len(),
        f[j] > 0,
    ensures
        f[j - 1] > 0,
{
    let hi = s.filter(len_is(j + 1));
    let lo = s.filter(len_is(j));
    vstd::set_lib::lemma_set_subset_finite(s, hi);
    vstd::set_lib::lemma_set_subset_finite(s, lo);
    assert(hi.len() == f[j]);
    vstd::set::axiom_set_choose_len(hi);
    let x = hi.choose();
    assert(s.contains(x) && x.len() == j + 1);
    assert(s.contains(x.remove(0)));
    assert(lo.contains(x.remove(0)));
    if lo.len() == 0 {
        lo.lemma_len0_is_empty();
        assert(!lo.contains(x.remove(0)));
    }
}

/// For `k ≥ 1`, the Betti estimate `β_k` of a complex is `max(0, f_k − m_k − m_{k+1})`,
/// where `m_j` is the smaller of the number of `j`-simplices and the number of distinct
/// `(j−1)`-faces of `j`-simplices; both counts are read off the complex itself.
pub proof fn lemma_betti_from_boundary_counts(s: Set<Seq<usize>>, f: Seq<usize>, k: int)
    requires
        is_complex(s),
        is_f_vector(s, f),
        1 <= k < f.len(),
    ensures
        betti_spec(s, f)[k] == ({
            let m_k = if dim_count(s, k) <= boundary_faces(s, k).len() {
                dim_count(s, k) as int
            } else {
                boundary_faces(s, k).len() as int
            };
            let m_next = if dim_count(s, k + 1) <= boundary_faces(s, k + 1).len() {
                dim_count(s, k + 1) as int
            } else {
                boundary_faces(s, k + 1).len() as int
            };
            let b = dim_count(s, k) - m_k - m_next;
            if b > 0 {
                b
            } else {
                0
            }
        }),
{
    assert(f[k] == dim_count(s, k));
    if f[k] > 0 {
        lemma_lower_dimension_nonempty(s, f, k);
    }
    if k + 1 < f.len() {
        assert(f[k + 1] == dim_count(s, k + 1));
    } else {
        assert(s.filter(len_is(k + 1 + 1)) =~= Set::<Seq<usize>>::empty()) by {
            assert forall|t: Seq<usize>| !#[trigger] s.filter(len_is(k + 1 + 1)).contains(t) by {
                if s.contains(t) {
                    assert(t.len() <= f.len());
                }
            }
        }
        assert(dim_count(s, k + 1) == 0);
    }
}

/// Adding an isolated vertex to a non-empty complex changes no Betti estimate above
/// dimension zero.
pub proof fn lemma_betti_isolated_vertex(s: Set<Seq<usize>>, f: Seq<usize>, v: usize, f2: Seq<usize>)
    requires
        is_complex(s),
        is_f_vector(s, f),
        f.len() > 0,
        !is_vertex(s, v),
        is_f_vector(s.insert(seq![v]), f2),
    ensures
        betti_spec(s.insert(seq![v]), f2).len() == betti_spec(s, f).len(),
        forall|k: int|
            1 <= k < betti_spec(s, f).len() ==> #[trigger] betti_spec(s.insert(seq![v]), f2)[k]
                == betti_spec(s, f)[k],
{
    let s2 = s.insert(seq![v]);
    assert(is_complex(s2)) by {
        assert forall|t: Seq<usize>, i: int|
            s2.contains(t) && t.len() > 1 && 0 <= i < t.len() implies s2.contains(#[trigger] t.remove(i)) by {
            assert(s.contains(t));
        }
        assert(crate::simplex::valid_simplex(seq![v]));
    }
    let t0 = choose|t: Seq<usize>| s.contains(t) && t.len() == f.len();
    assert(s2.contains(t0));
    assert(f.len() <= f2.len());
    if f2.len() > 0 {
        let t2 = choose|t: Seq<usize>| s2.contains(t) && t.len() == f2.len();
        if t2 != seq![v] {
            assert(s.contains(t2));
        }
    }
    assert(f2.len() == f.len());
    assert forall|j: int| j >= 1 implies #[trigger] dim_count(s2, j) == dim_count(s, j)
        && boundary_faces(s2, j) == boundary_faces(s, j) by {
        assert(s2.filter(len_is(j + 1)) =~= s.filter(len_is(j + 1)));
        assert(boundary_faces(s2, j) =~= boundary_faces(s, j)) by {
            assert forall|t: Seq<usize>| #[trigger] boundary_faces(s2, j).contains(t) implies boundary_faces(s, j).contains(t) by {
                let (x, i) = choose|x: Seq<usize>, i: int|
                    s2.contains(x) && x.len() == j + 1 && 0 <= i < x.len() && t == #[trigger] x.remove(i);
                assert(x != seq![v]);
                assert(s.contains(x));
            }
            assert forall|t: Seq<usize>| #[trigger] boundary_faces(s, j).contains(t) implies boundary_faces(s2, j).contains(t) by {
                let (x, i) = choose|x: Seq<usize>, i: int|
                    s.contains(x) && x.len() == j + 1 && 0 <= i < x.len() && t == #[trigger] x.remove(i);
                assert(s2.contains(x));
            }
        }
    }
    assert forall|k: int| 1 <= k < betti_spec(s, f).len() implies #[trigger] betti_spec(s2, f2)[k]
        == betti_spec(s, f)[k] by {
        lemma_betti_from_boundary_counts(s, f, k);
        lemma_betti_from_boundary_counts(s2, f2, k);
        assert(dim_count(s2, k) == dim_count(s, k));
        assert(dim_count(s2, k + 1) == dim_count(s, k + 1));
    }
}

/// β₀ is the number of connected components, for every complex including the empty
/// one.
pub proof fn lemma_betti_zero_is_components(s: Set<Seq<usize>>, f: Seq<usize>)
    requires
        is_f_vector(s, f),
    ensures
        betti_spec(s, f)[0] == num_components(s),
{
    if f.len() == 0 {
        assert forall|c: Set<usize>| !components(s).contains(c) by {
            if components(s).contains(c) {
                let v = choose|v: usize| is_vertex(s, v) && c == crate::graph::class_of(s, v);
                assert(s.contains(seq![v]));
            }
        }
        assert(components(s) =~= Set::<Set<usize>>::empty());
    }
}

/// Betti number estimates: `[0]` for the empty complex; otherwise, for each dimension
/// `k` of the complex, `β_k = max(0, f_k − r_k − r_{k+1})` for `k ≥ 1` (see the module
/// documentation), with `β_0` the number of connected components.
pub fn betti_numbers(complex: &SimplicialComplex) -> (r: Vec<usize>)
    requires
        complex.wf(),
    ensures
        r@.len() == betti_spec(complex@, complex.f()).len(),
        forall|k: int| 0 <= k < r@.len() ==> r@[k] == #[trigger] betti_spec(complex@, complex.f())[k],
        r@[0] <= complex@.len(),
        forall|k: int| 1 <= k < r@.len() ==> r@[k] <= complex.f()[k],
{
    let f = complex.f_vector();
    if f.len() == 0 {
        let mut r: Vec<usize> = Vec::new();
        r.push(0);
        return r;
    }
    let max_dim = f.len() - 1;
    let mut ranks: Vec<usize> = Vec::new();
    ranks.push(0);
    for k in 1..max_dim + 1
        invariant
            max_dim + 1 == f@.len(),
            f@ == complex.f(),
            complex.wf(),
            is_f_vector(complex@, f@),
            ranks@.len() == k,
            forall|q: int| 1 <= q < k ==> #[trigger] ranks@[q] == boundary_rank(complex@, f@, q),
    {
        let k_faces = complex.simplices_of_dimension(k).len();
        let km1_faces = complex.simplices_of_dimension(k - 1).len();
        if k_faces == 0 || km1_faces == 0 {
            ranks.push(0);
        } else {
            let c = boundary_face_count(complex, k);
            if k_faces <= c {
                ranks.push(k_faces);
            } else {
                ranks.push(c);
            }
        }
    }
    ranks.push(0);
    let mut betti: Vec<usize> = Vec::new();
    for k in 0..max_dim + 1
        invariant
            max_dim + 1 == f@.len(),
            f@ == complex.f(),
            ranks@.len() == max_dim + 2,
            ranks@[max_dim + 1] == 0,
            forall|q: int| 1 <= q <= max_dim ==> #[trigger] ranks@[q] == boundary_rank(complex@, f@, q),
            betti@.len() == k,
            forall|q: int| 1 <= q < k ==> #[trigger] betti@[q] == betti_estimate(complex@, f@, q),
            forall|q: int| 1 <= q < k ==> #[trigger] betti@[q] <= f@[q],
    {
        let c_k = f[k];
        let rk = if k == 0 { 0 } else { ranks[k] };
        let rk1 = ranks[k + 1];
        assert(k + 1 <= max_dim ==> rk1 == boundary_rank(complex@, f@, k + 1));
        assert(k + 1 > max_dim ==> boundary_rank(complex@, f@, k + 1) == 0);
        let b = if c_k >= rk && c_k - rk >= rk1 {
            c_k - rk - rk1
        } else {
            0
        };
        betti.push(b);
    }
    let components = complex.connected_components();
    let nc = components.len();
    betti.set(0, nc);
    proof {
        let bs = betti_spec(complex@, f@);
        assert forall|k: int| 0 <= k < betti@.len() implies betti@[k] == #[trigger] bs[k] by {
        }
    }
    betti
}

/// All topological invariants of a complex: Euler characteristic, f-vector and Betti
/// number estimates.
pub fn compute_invariants(complex: &SimplicialComplex) -> (inv: TopologyInvariants)
    requires
        complex.wf(),
        complex@.len() <= i64::MAX,
    ensures
        inv.euler_characteristic == alt_sum(complex.f()),
        inv.f_vector@ == complex.f(),
        inv.betti_numbers@.len() == betti_spec(complex@, complex.f()).len(),
        forall|k: int|
            0 <= k < inv.betti_numbers@.len() ==> inv.betti_numbers@[k] == #[trigger] betti_spec(
                complex@,
                complex.f(),
            )[k],
{
    let f = complex.f_vector();
    let mut fv: Vec<usize> = Vec::new();
    for i in 0..f.len()
        invariant
            fv@ == f@.take(i as int),
    {
        fv.push(f[i]);
        assert(f@.take(i + 1) =~= f@.take(i as int).push(f@[i as int]));
    }
    assert(f@.take(f@.len() as int) =~= f@);
    TopologyInvariants {
        euler_characteristic: euler_characteristic(complex),
        f_vector: fv,
        betti_numbers: betti_numbers(complex),
    }
}

/// The sum of the first `k` entries of `f` (all of them when `k` exceeds its length).
pub open spec fn prefix_sum(f: Seq<usize>, k: int) -> int {
    if k <= f.len() {
        seq_sum(f.take(k))
    } else {
        seq_sum(f)
    }
}

/// Compare two complexes by their Euler characteristics.
pub fn compare_by_euler(a: &SimplicialComplex, b: &SimplicialComplex) -> (r: Ordering)
    requires
        a.wf(),
        b.wf(),
        a@.len() <= i64::MAX,
        b@.len() <= i64::MAX,
    ensures
        r == Ordering::Less <==> alt_sum(a.f()) < alt_sum(b.f()),
        r == Ordering::Equal <==> alt_sum(a.f()) == alt_sum(b.f()),
        r == Ordering::Greater <==> alt_sum(a.f()) > alt_sum(b.f()),
{
    let x = euler_characteristic(a);
    let y = euler_characteristic(b);
    if x < y {
        Ordering::Less
    } else if x == y {
        Ordering::Equal
    } else {
        Ordering::Greater
    }
}

/// Does the Euler-Poincaré formula `χ = Σ_k (−1)^k β_k` hold for the Betti number
/// estimates of this complex?
pub fn verify_euler_poincare(complex: &SimplicialComplex) -> (ok: bool)
    requires
        complex.wf(),
        complex@.len() <= i64::MAX,
    ensures
        ok == (alt_sum(complex.f()) == signed_alt_sum(betti_spec(complex@, complex.f()))),
{
    let chi = euler_characteristic(complex);
    let betti = betti_numbers(complex);
    let ghost bs = betti_spec(complex@, complex.f());
    let ghost f = complex.f();
    let ghost total = complex@.len();
    proof {
        complex.lemma_f();
        crate::complex::lemma_f_vector_sum(complex@, f);
    }
    let n = betti.len();
    let mut acc: i128 = 0;
    assert(bs.take(0) =~= Seq::<int>::empty());
    for k in 0..n
        invariant
            n == betti@.len(),
            n == bs.len(),
            forall|q: int| 0 <= q < n ==> betti@[q] == #[trigger] bs[q],
            betti@[0] <= total,
            forall|q: int| 1 <= q < n ==> betti@[q] <= #[trigger] f[q],
            f.len() == 0 ==> n == 1,
            f.len() > 0 ==> n == f.len(),
            seq_sum(f) == total,
            total <= i64::MAX,
            acc == signed_alt_sum(bs.take(k as int)),
            -(total + prefix_sum(f, k as int)) <= acc <= total + prefix_sum(f, k as int),
    {
        let b = betti[k];
        assert(bs.take(k + 1).drop_last() =~= bs.take(k as int));
        proof {
            if f.len() > 0 {
                assert(f.take(k + 1).drop_last() =~= f.take(k as int));
                crate::counting::lemma_sum_prefix(f, k + 1);
                crate::counting::lemma_alt_sum_bound(f.take(k + 1));
            } else {
                assert(f.take(0) =~= f);
                crate::counting::lemma_alt_sum_bound(f);
            }
        }
        if k % 2 == 0 {
            assert(sign(k as int) == 1);
            acc = acc + b as i128;
        } else {
            assert(sign(k as int) == -1);
            acc = acc - b as i128;
        }
    }
    assert(bs.take(n as int) =~= bs);
    acc == chi as i128
}

} // verus!
