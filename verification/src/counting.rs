//! Cardinality facts about finite sequences and the sets of their elements.
use vstd::prelude::*;

verus! {

/// Filtering a sequence without repeats leaves a sequence without repeats.
pub proof fn lemma_filter_no_dup<A>(s: Seq<A>, p: spec_fn(A) -> bool)
    requires
        s.no_duplicates(),
    ensures
        s.filter(p).no_duplicates(),
    decreases s.len(),
{
    reveal(Seq::filter);
    if s.len() > 0 {
        let rest = s.drop_last();
        assert(rest.no_duplicates());
        lemma_filter_no_dup(rest, p);
        if p(s.last()) {
            let fr = rest.filter(p);
            assert forall|i: int| 0 <= i < fr.len() implies fr[i] != s.last() by {
                assert(fr.contains(fr[i]));
                rest.lemma_filter_contains_rev(p, fr[i]);
                let k = choose|k: int| 0 <= k < rest.len() && rest[k] == fr[i];
                assert(s[k] == rest[k]);
            }
        }
    }
}

/// Filtering a sequence and then taking its set of elements is the same as filtering
/// the set of elements.
pub proof fn lemma_filter_to_set<A>(s: Seq<A>, p: spec_fn(A) -> bool)
    ensures
        s.filter(p).to_set() == s.to_set().filter(p),
{
    let f = s.filter(p);
    assert forall|x: A| f.to_set().contains(x) <==> s.to_set().filter(p).contains(x) by {
        if f.contains(x) {
            s.lemma_filter_contains_rev(p, x);
            let k = choose|k: int| 0 <= k < f.len() && f[k] == x;
            s.lemma_filter_pred(p, k);
        }
        if s.contains(x) && p(x) {
            let k = choose|k: int| 0 <= k < s.len() && s[k] == x;
            s.lemma_filter_contains(p, k);
        }
    }
    assert(f.to_set() =~= s.to_set().filter(p));
}

/// For a sequence without repeats, filtering the sequence and filtering its set of
/// elements give the same count.
pub proof fn lemma_filter_count<A>(s: Seq<A>, p: spec_fn(A) -> bool)
    requires
        s.no_duplicates(),
    ensures
        s.filter(p).len() == s.to_set().filter(p).len(),
        s.to_set().filter(p).finite(),
{
    lemma_filter_no_dup(s, p);
    lemma_filter_to_set(s, p);
    s.filter(p).unique_seq_to_set();
}

/// A sequence without repeats whose elements all lie in a finite set is no longer
/// than the set.
pub proof fn lemma_no_dup_subset_len<A>(s: Seq<A>, t: Set<A>)
    requires
        s.no_duplicates(),
        t.finite(),
        forall|i: int| 0 <= i < s.len() ==> t.contains(#[trigger] s[i]),
    ensures
        s.len() <= t.len(),
{
    s.unique_seq_to_set();
    assert(s.to_set().subset_of(t));
    vstd::set_lib::lemma_len_subset(s.to_set(), t);
}

/// A sequence without repeats whose elements all occur in `t` is no longer than `t`.
pub proof fn lemma_no_dup_contained_len<A>(s: Seq<A>, t: Seq<A>)
    requires
        s.no_duplicates(),
        forall|x: A| #[trigger] s.contains(x) ==> t.contains(x),
    ensures
        s.len() <= t.len(),
{
    assert forall|i: int| 0 <= i < s.len() implies t.to_set().contains(#[trigger] s[i]) by {
        assert(s.contains(s[i]));
    }
    lemma_no_dup_subset_len(s, t.to_set());
    t.lemma_cardinality_of_set();
}

/// The elements of `s.push(x)` are those of `s` and `x`.
pub proof fn lemma_push_contains<A>(s: Seq<A>, x: A, t: A)
    ensures
        s.push(x).contains(t) <==> (s.contains(t) || t == x),
{
    if s.push(x).contains(t) {
        let k = choose|k: int| 0 <= k < s.len() + 1 && s.push(x)[k] == t;
        if k < s.len() {
            assert(s[k] == t);
        }
    }
    if s.contains(t) {
        let k = choose|k: int| 0 <= k < s.len() && s[k] == t;
        assert(s.push(x)[k] == t);
    }
    if t == x {
        assert(s.push(x)[s.len() as int] == t);
    }
}

/// The sum of the entries of `f`.
pub open spec fn seq_sum(f: Seq<usize>) -> int
    decreases f.len(),
{
    if f.len() == 0 {
        0
    } else {
        seq_sum(f.drop_last()) + f.last()
    }
}

/// `+1` for even `k`, `-1` for odd `k`.
pub open spec fn sign(k: int) -> int {
    if k % 2 == 0 {
        1
    } else {
        -1
    }
}

/// The alternating sum `f[0] - f[1] + f[2] - ...`.
pub open spec fn alt_sum(f: Seq<usize>) -> int
    decreases f.len(),
{
    if f.len() == 0 {
        0
    } else {
        alt_sum(f.drop_last()) + sign(f.len() - 1) * f.last()
    }
}

/// The alternating sum `s[0] - s[1] + s[2] - ...` of a sequence of integers.
pub open spec fn signed_alt_sum(s: Seq<int>) -> int
    decreases s.len(),
{
    if s.len() == 0 {
        0
    } else {
        signed_alt_sum(s.drop_last()) + sign(s.len() - 1) * s.last()
    }
}

/// An alternating sum is bounded in size by the plain sum.
pub proof fn lemma_alt_sum_bound(f: Seq<usize>)
    ensures
        -seq_sum(f) <= alt_sum(f) <= seq_sum(f),
        seq_sum(f) >= 0,
    decreases f.len(),
{
    if f.len() > 0 {
        lemma_alt_sum_bound(f.drop_last());
        let x = f.last() as int;
        if (f.len() - 1) % 2 == 0 {
            assert(sign(f.len() - 1) * x == x);
        } else {
            assert(sign(f.len() - 1) * x == -x);
        }
    }
}

/// A prefix of a sequence sums to no more than the sequence.
pub proof fn lemma_sum_prefix(f: Seq<usize>, k: int)
    requires
        0 <= k <= f.len(),
    ensures
        seq_sum(f.take(k)) <= seq_sum(f),
    decreases f.len(),
{
    if k < f.len() {
        assert(f.drop_last().take(k) =~= f.take(k));
        lemma_sum_prefix(f.drop_last(), k);
        lemma_alt_sum_bound(f.drop_last());
    } else {
        assert(f.take(k) =~= f);
    }
}

} // verus!
