//! Simplicial complex construction and queries.
//!
//! A simplicial complex is a collection of simplices closed under taking faces.
//! [`SimplicialComplex`] keeps its simplices in a vector without repeats, together
//! with the count of simplices of each dimension.
use vstd::prelude::*;
use crate::graph::{
    adjacent, connected, is_component_partition, is_vertex, lemma_closed_contains_walk,
    lemma_connected_refl, lemma_connected_step, lemma_connected_symm, lemma_connected_trans,
    lemma_edge_ends, num_components, walk_between,
};
use crate::counting::{
    alt_sum, lemma_alt_sum_bound, lemma_filter_count, lemma_filter_no_dup, lemma_filter_to_set,
    lemma_push_contains, lemma_sum_prefix, seq_sum, sign,
};
use crate::simplex::{
    all_faces_of, distinct_simplices, insert_unique, vec_contains, is_face, lemma_all_faces_of,
    lemma_remove_sorted, valid_simplex, views, Simplex, boundary_of,
};

verus! {

/// Every member of `s` is a valid simplex vertex list.
pub open spec fn all_valid(s: Set<Seq<usize>>) -> bool {
    forall|t: Seq<usize>| s.contains(t) ==> valid_simplex(t)
}

/// `s` is closed under the face relation: removing one vertex from a member with more
/// than one vertex gives a member.
pub open spec fn face_closed(s: Set<Seq<usize>>) -> bool {
    forall|t: Seq<usize>, i: int|
        s.contains(t) && t.len() > 1 && 0 <= i < t.len() ==> s.contains(#[trigger] t.remove(i))
}

/// `s` is a simplicial complex: a finite set of valid vertex lists closed under faces.
pub open spec fn is_complex(s: Set<Seq<usize>>) -> bool {
    s.finite() && all_valid(s) && face_closed(s)
}

/// The predicate "has exactly `n` vertices".
pub open spec fn len_is(n: int) -> spec_fn(Seq<usize>) -> bool {
    |t: Seq<usize>| t.len() == n
}

/// The number of `k`-dimensional members of `s`.
pub open spec fn dim_count(s: Set<Seq<usize>>, k: int) -> nat {
    s.filter(len_is(k + 1)).len()
}

/// `f` is the f-vector of `s`: `f[k]` counts the `k`-dimensional members, and `f` is
/// as long as the largest member (empty when `s` is empty).
pub open spec fn is_f_vector(s: Set<Seq<usize>>, f: Seq<usize>) -> bool {
    &&& forall|t: Seq<usize>| s.contains(t) ==> 1 <= t.len() <= f.len()
    &&& f.len() > 0 ==> exists|t: Seq<usize>| s.contains(t) && t.len() == f.len()
    &&& forall|k: int| 0 <= k < f.len() ==> #[trigger] f[k] == dim_count(s, k)
}

/// The simplices spanned by the vertices of `v`: every strictly increasing non-empty
/// list of vertices of `v`.
pub open spec fn faces_of_set(v: Seq<usize>) -> Set<Seq<usize>> {
    Set::new(|t: Seq<usize>| valid_simplex(t) && is_face(t, v))
}

/// The predicate "has at most `n` vertices".
pub open spec fn len_at_most(n: int) -> spec_fn(Seq<usize>) -> bool {
    |t: Seq<usize>| t.len() <= n
}

/// The vertex lists of a sequence of borrowed simplices.
pub open spec fn ref_views(s: Seq<&Simplex>) -> Seq<Seq<usize>> {
    s.map_values(|x: &Simplex| x@)
}

/// The entries of an f-vector add up to the number of simplices.
pub proof fn lemma_f_vector_sum(s: Set<Seq<usize>>, f: Seq<usize>)
    requires
        s.finite(),
        is_f_vector(s, f),
    ensures
        seq_sum(f) == s.len(),
{
    assert forall|m: int| 0 <= m <= f.len() implies seq_sum(#[trigger] f.take(m)) == s.filter(
        len_at_most(m),
    ).len() by {
        lemma_f_vector_prefix_sum(s, f, m);
    }
    assert(f.take(f.len() as int) =~= f);
    assert(s.filter(len_at_most(f.len() as int)) =~= s);
}

proof fn lemma_f_vector_prefix_sum(s: Set<Seq<usize>>, f: Seq<usize>, m: int)
    requires
        s.finite(),
        is_f_vector(s, f),
        0 <= m <= f.len(),
    ensures
        seq_sum(f.take(m)) == s.filter(len_at_most(m)).len(),
    decreases m,
{
    vstd::set_lib::lemma_set_subset_finite(s, s.filter(len_at_most(m)));
    if m == 0 {
        assert(s.filter(len_at_most(0)) =~= Set::<Seq<usize>>::empty());
        assert(f.take(0) =~= Seq::<usize>::empty());
    } else {
        lemma_f_vector_prefix_sum(s, f, m - 1);
        assert(f.take(m).drop_last() =~= f.take(m - 1));
        let a = s.filter(len_at_most(m - 1));
        let b = s.filter(len_is(m));
        vstd::set_lib::lemma_set_subset_finite(s, a);
        vstd::set_lib::lemma_set_subset_finite(s, b);
        assert(a.disjoint(b));
        vstd::set_lib::lemma_set_disjoint_lens(a, b);
        assert(a + b =~= s.filter(len_at_most(m)));
        assert(f[m - 1] == dim_count(s, m - 1));
    }
}

/// The vertex lists held by a vector of vectors.
pub open spec fn comp_views(cs: Seq<Vec<usize>>) -> Seq<Seq<usize>> {
    cs.map_values(|c: Vec<usize>| c@)
}

/// The predicate "does not have `v` as a vertex".
pub open spec fn avoids(v: usize) -> spec_fn(Seq<usize>) -> bool {
    |t: Seq<usize>| !t.contains(v)
}

/// The predicate "has `v` as a vertex".
pub open spec fn touches(v: usize) -> spec_fn(Seq<usize>) -> bool {
    |t: Seq<usize>| t.contains(v)
}

/// In a complex closed under removing single vertices, every face of a member is a
/// member: the complex is closed under the face relation.
pub proof fn lemma_closed_under_all_faces(s: Set<Seq<usize>>, x: Seq<usize>, t: Seq<usize>)
    requires
        face_closed(s),
        all_valid(s),
        s.contains(x),
        valid_simplex(t),
        is_face(t, x),
    ensures
        s.contains(t),
    decreases x.len(),
{
    assert(valid_simplex(x));
    crate::simplex::lemma_face_len(x, t);
    if t.len() == x.len() {
        crate::simplex::lemma_face_same_len(x, t);
    } else {
        let m = if forall|j: int| 0 <= j < x.len() ==> t.contains(#[trigger] x[j]) {
            crate::simplex::lemma_face_len(t, x);
            0
        } else {
            choose|j: int| 0 <= j < x.len() && !t.contains(#[trigger] x[j])
        };
        let x2 = x.remove(m);
        lemma_remove_sorted(x, m);
        assert(s.contains(x2));
        assert forall|i: int| 0 <= i < t.len() implies x2.contains(#[trigger] t[i]) by {
            assert(x.contains(t[i]));
            assert(t[i] != x[m]);
            crate::simplex::lemma_removed_keeps(x, m, t[i]);
        }
        lemma_closed_under_all_faces(s, x2, t);
    }
}

/// Filtering a strictly increasing sequence keeps it strictly increasing.
pub proof fn lemma_filter_sorted(s: Seq<usize>, p: spec_fn(usize) -> bool)
    requires
        crate::simplex::strictly_sorted(s),
    ensures
        crate::simplex::strictly_sorted(s.filter(p)),
        is_face(s.filter(p), s),
    decreases s.len(),
{
    reveal(Seq::filter);
    if s.len() > 0 {
        let r = s.drop_last();
        lemma_filter_sorted(r, p);
        let fr = r.filter(p);
        assert forall|i: int| 0 <= i < fr.len() implies s.contains(#[trigger] fr[i]) by {
            assert(r.contains(fr[i]));
            let k = choose|k: int| 0 <= k < r.len() && r[k] == fr[i];
            assert(s[k] == fr[i]);
        }
        if p(s.last()) {
            assert forall|i: int| 0 <= i < fr.len() implies fr[i] < s.last() by {
                assert(r.contains(fr[i]));
                let k = choose|k: int| 0 <= k < r.len() && r[k] == fr[i];
                assert(s[k] < s[s.len() - 1]);
            }
            let f = fr.push(s.last());
            assert forall|a: int, b: int| 0 <= a < b < f.len() implies f[a] < f[b] by {
                if b < fr.len() {
                    assert(fr[a] < fr[b]);
                }
            }
            assert forall|i: int| 0 <= i < f.len() implies s.contains(#[trigger] f[i]) by {
                if i < fr.len() {
                    assert(s.contains(fr[i]));
                } else {
                    assert(s[s.len() - 1] == f[i]);
                }
            }
        }
    }
}

/// The vertices shared by `a` and `b`, in increasing order.
pub open spec fn common_vertices(a: Seq<usize>, b: Seq<usize>) -> Seq<usize> {
    a.filter(|x: usize| b.contains(x))
}

/// In a simplicial complex, two simplices either share no vertex or meet in a common
/// face that is itself a simplex of the complex.
pub proof fn lemma_intersection_is_face(s: Set<Seq<usize>>, a: Seq<usize>, b: Seq<usize>)
    requires
        face_closed(s),
        all_valid(s),
        s.contains(a),
        s.contains(b),
    ensures
        common_vertices(a, b).len() == 0 || (s.contains(common_vertices(a, b)) && is_face(
            common_vertices(a, b),
            a,
        ) && is_face(common_vertices(a, b), b)),
{
    let p = |x: usize| b.contains(x);
    let c = common_vertices(a, b);
    assert(valid_simplex(a));
    lemma_filter_sorted(a, p);
    if c.len() > 0 {
        assert forall|i: int| 0 <= i < c.len() implies b.contains(#[trigger] c[i]) by {
            a.lemma_filter_pred(p, i);
        }
        lemma_closed_under_all_faces(s, a, c);
    }
}

/// A face of a face is a face.
pub proof fn lemma_face_trans(a: Seq<usize>, b: Seq<usize>, c: Seq<usize>)
    requires
        is_face(a, b),
        is_face(b, c),
    ensures
        is_face(a, c),
{
    assert forall|i: int| 0 <= i < a.len() implies c.contains(#[trigger] a[i]) by {
        assert(b.contains(a[i]));
        let k = choose|k: int| 0 <= k < b.len() && b[k] == a[i];
        assert(c.contains(b[k]));
    }
}

/// A simplicial complex: a collection of simplices closed under the face relation.
#[derive(Debug, Clone)]
pub struct SimplicialComplex {
    pub(crate) simplices: Vec<Simplex>,
    pub(crate) f_vector: Vec<usize>,
}

impl View for SimplicialComplex {
    type V = Set<Seq<usize>>;

    /// The vertex lists of the simplices in the complex.
    closed spec fn view(&self) -> Set<Seq<usize>> {
        views(self.simplices@).to_set()
    }
}

impl SimplicialComplex {
    /// The stored vector holds each simplex once and the stored f-vector is up to date.
    pub closed spec fn stored_ok(&self) -> bool {
        &&& distinct_simplices(self.simplices@)
        &&& is_f_vector(self@, self.f_vector@)
    }

    /// The complex is well formed: a finite set of valid simplices, closed under faces.
    pub open spec fn wf(&self) -> bool {
        &&& self.stored_ok()
        &&& self@.finite()
        &&& all_valid(self@)
        &&& face_closed(self@)
    }

    /// The stored f-vector.
    pub closed spec fn f(&self) -> Seq<usize> {
        self.f_vector@
    }

    /// A well-formed complex knows its f-vector.
    pub proof fn lemma_f(&self)
        requires
            self.wf(),
        ensures
            is_f_vector(self@, self.f()),
    {
    }

    proof fn lemma_stored(&self)
        requires
            distinct_simplices(self.simplices@),
        ensures
            self@.finite(),
            all_valid(self@),
            self@.len() == self.simplices@.len(),
    {
        views(self.simplices@).unique_seq_to_set();
        assert forall|t: Seq<usize>| self@.contains(t) implies valid_simplex(t) by {
            let k = choose|k: int| 0 <= k < views(self.simplices@).len() && views(self.simplices@)[k] == t;
            assert(self.simplices@[k].wf());
        }
    }

    /// Create an empty simplicial complex.
    pub fn new() -> (k: Self)
        ensures
            k.wf(),
            k@ == Set::<Seq<usize>>::empty(),
    {
        let k = SimplicialComplex { simplices: Vec::new(), f_vector: Vec::new() };
        assert(views(k.simplices@) =~= Seq::<Seq<usize>>::empty());
        assert(k@ =~= Set::<Seq<usize>>::empty());
        k
    }

    /// Recount the simplices of each dimension.
    pub(crate) fn recompute_f_vector(&mut self)
        requires
            distinct_simplices(old(self).simplices@),
        ensures
            final(self).simplices@ == old(self).simplices@,
            final(self).stored_ok(),
    {
        let n = self.simplices.len();
        let ghost vs = views(self.simplices@);
        let mut max_len: usize = 0;
        for i in 0..n
            invariant
                n == self.simplices@.len(),
                vs == views(self.simplices@),
                distinct_simplices(self.simplices@),
                i == 0 ==> max_len == 0,
                forall|k: int| 0 <= k < i ==> (#[trigger] vs[k]).len() <= max_len,
                i > 0 ==> exists|k: int| 0 <= k < i && (#[trigger] vs[k]).len() == max_len,
        {
            let l = self.simplices[i].len();
            assert(vs[i as int] == self.simplices@[i as int]@);
            assert(self.simplices@[i as int].wf());
            assert(l >= 1);
            if l > max_len {
                max_len = l;
                assert(vs[i as int].len() == max_len);
            } else {
                assert(i > 0);
                let ghost k0 = choose|k: int| 0 <= k < i && (#[trigger] vs[k]).len() == max_len;
                assert(vs[k0].len() == max_len);
            }
        }
        let mut f: Vec<usize> = Vec::new();
        for k in 0..max_len
            invariant
                f@.len() == k,
                forall|j: int| 0 <= j < k ==> f@[j] == 0,
        {
            f.push(0);
        }
        assert(vs.take(0).len() == 0);
        for i in 0..n
            invariant
                n == self.simplices@.len(),
                vs == views(self.simplices@),
                distinct_simplices(self.simplices@),
                forall|k: int| 0 <= k < n ==> (#[trigger] vs[k]).len() <= max_len,
                f@.len() == max_len,
                forall|k: int|
                    0 <= k < max_len ==> #[trigger] f@[k] == vs.take(i as int).filter(
                        len_is(k + 1),
                    ).len(),
        {
            let l = self.simplices[i].len();
            assert(vs[i as int] == self.simplices@[i as int]@);
            assert(self.simplices@[i as int].wf());
            let d = l - 1;
            assert(vs.take(i + 1) =~= vs.take(i as int).push(vs[i as int]));
            proof {
                vs.take(i as int).lemma_filter_len(len_is(d + 1));
            }
            let c = f[d];
            f.set(d, c + 1);
            assert forall|k: int| 0 <= k < max_len implies #[trigger] f@[k] == vs.take(i + 1).filter(
                len_is(k + 1),
            ).len() by {
                vs.take(i as int).lemma_filter_push(vs[i as int], len_is(k + 1));
            }
        }
        assert(vs.take(n as int) =~= vs);
        self.f_vector = f;
        proof {
            assert forall|k: int| 0 <= k < max_len implies #[trigger] self.f_vector@[k] == dim_count(
                self@,
                k,
            ) by {
                lemma_filter_count(vs, len_is(k + 1));
            }
            self.lemma_stored();
            assert forall|t: Seq<usize>| self@.contains(t) implies 1 <= t.len() <= max_len by {
                let k = choose|k: int| 0 <= k < vs.len() && vs[k] == t;
                assert(self.simplices@[k].wf());
            }
            if max_len > 0 {
                let k = choose|k: int| 0 <= k < n && (#[trigger] vs[k]).len() == max_len;
                assert(self@.contains(vs[k]));
            }
        }
    }

    /// Add a simplex together with all of its faces, so that the complex stays closed
    /// under the face relation: adding `{0, 1, 2}` also adds `{0}`, `{1}`, `{2}`,
    /// `{0, 1}`, `{0, 2}` and `{1, 2}`.
    pub fn add_simplex(&mut self, simplex: &Simplex)
        requires
            old(self).wf(),
            simplex.wf(),
        ensures
            final(self).wf(),
            final(self)@ == old(self)@.union(faces_of_set(simplex@)),
    {
        let ghost before = self@;
        let mut simplices: Vec<Simplex> = Vec::new();
        std::mem::swap(&mut simplices, &mut self.simplices);
        let faces = simplex.all_faces();
        let ghost fv = views(faces@);
        let m = faces.len();
        assert(fv.take(0) =~= Seq::<Seq<usize>>::empty());
        for j in 0..m
            invariant
                m == faces@.len(),
                fv == views(faces@),
                fv == all_faces_of(simplex@),
                forall|k: int| 0 <= k < m ==> (#[trigger] faces@[k]).wf(),
                distinct_simplices(simplices@),
                forall|t: Seq<usize>|
                    #[trigger] views(simplices@).contains(t) <==> (before.contains(t)
                        || fv.take(j as int).contains(t)),
        {
            let ghost prev = simplices@;
            insert_unique(&mut simplices, &faces[j]);
            let ghost x = faces@[j as int]@;
            assert(fv[j as int] == x);
            assert(fv.take(j + 1) =~= fv.take(j as int).push(x));
            assert forall|t: Seq<usize>|
                #[trigger] views(simplices@).contains(t) <==> (before.contains(t) || fv.take(
                    j + 1,
                ).contains(t)) by {
                lemma_push_contains(fv.take(j as int), x, t);
                if views(prev).contains(x) {
                } else {
                    lemma_push_contains(views(prev), x, t);
                }
            }
        }
        assert(fv.take(m as int) =~= fv);
        self.simplices = simplices;
        self.recompute_f_vector();
        proof {
            self.lemma_stored();
            assert forall|t: Seq<usize>|
                self@.contains(t) <==> before.union(faces_of_set(simplex@)).contains(t) by {
                lemma_all_faces_of(simplex@, t);
                assert(self@.contains(t) <==> views(self.simplices@).contains(t));
            }
            assert(self@ =~= before.union(faces_of_set(simplex@)));
            assert forall|t: Seq<usize>, i: int|
                self@.contains(t) && t.len() > 1 && 0 <= i < t.len() implies self@.contains(
                #[trigger] t.remove(i)) by {
                if before.contains(t) {
                } else {
                    assert(faces_of_set(simplex@).contains(t));
                    lemma_remove_sorted(t, i);
                    lemma_face_trans(t.remove(i), t, simplex@);
                    assert(faces_of_set(simplex@).contains(t.remove(i)));
                }
            }
        }
    }

    /// Add the simplex spanned by the given vertices, with all of its faces.
    pub fn add(&mut self, vertices: Vec<usize>)
        requires
            old(self).wf(),
            vertices.len() > 0,
        ensures
            final(self).wf(),
            final(self)@ == old(self)@.union(faces_of_set(vertices@)),
    {
        let ghost v = vertices@;
        let s = Simplex::from_vertices(vertices);
        self.add_simplex(&s);
        assert(faces_of_set(s@) =~= faces_of_set(v)) by {
            assert forall|t: Seq<usize>| is_face(t, s@) <==> is_face(t, v) by {
                if is_face(t, s@) {
                    assert forall|i: int| 0 <= i < t.len() implies v.contains(#[trigger] t[i]) by {
                        assert(s@.contains(t[i]));
                        assert(s@.to_set().contains(t[i]));
                    }
                }
                if is_face(t, v) {
                    assert forall|i: int| 0 <= i < t.len() implies s@.contains(#[trigger] t[i]) by {
                        assert(v.contains(t[i]));
                        assert(v.to_set().contains(t[i]));
                    }
                }
            }
        }
    }

    /// Does the complex contain a simplex with the vertices of `simplex`?
    pub fn contains(&self, simplex: &Simplex) -> (b: bool)
        ensures
            b == self@.contains(simplex@),
    {
        crate::simplex::holds_simplex(&self.simplices, simplex)
    }

    /// Number of simplices in the complex.
    pub fn num_simplices(&self) -> (n: usize)
        requires
            self.wf(),
        ensures
            n == self@.len(),
    {
        proof {
            self.lemma_stored();
        }
        self.simplices.len()
    }

    /// Check that the stored collection is closed under the face relation (always so
    /// for a well-formed complex).
    pub fn is_simplicial_complex(&self) -> (b: bool)
        requires
            self.stored_ok(),
        ensures
            b == face_closed(self@),
    {
        let n = self.simplices.len();
        for i in 0..n
            invariant
                n == self.simplices@.len(),
                distinct_simplices(self.simplices@),
                forall|k: int, j: int|
                    0 <= k < i && self.simplices@[k]@.len() > 1 && 0 <= j
                        < self.simplices@[k]@.len() ==> self@.contains(
                        #[trigger] self.simplices@[k]@.remove(j),
                    ),
        {
            assert(self.simplices@[i as int].wf());
            let bd = self.simplices[i].boundary();
            let m = bd.len();
            for j in 0..m
                invariant
                    n == self.simplices@.len(),
                    i < n,
                    m == bd@.len(),
                    views(bd@) == boundary_of(self.simplices@[i as int]@),
                    forall|q: int| 0 <= q < j ==> self@.contains(#[trigger] views(bd@)[q]),
            {
                if !self.contains(&bd[j]) {
                    proof {
                        let t = self.simplices@[i as int]@;
                        assert(views(self.simplices@)[i as int] == t);
                        assert(self@.contains(t));
                        assert(views(bd@).len() == bd@.len());
                        assert(boundary_of(t).len() > 0);
                        assert(t.len() > 1);
                        assert(views(bd@)[j as int] == t.remove(j as int));
                        assert(!face_closed(self@));
                    }
                    return false;
                }
                assert(views(bd@)[j as int] == bd@[j as int]@);
            }
            assert forall|j: int|
                self.simplices@[i as int]@.len() > 1 && 0 <= j < self.simplices@[i as int]@.len()
                    implies self@.contains(#[trigger] self.simplices@[i as int]@.remove(j)) by {
                assert(views(bd@).len() == self.simplices@[i as int]@.len());
                assert(views(bd@)[j] == self.simplices@[i as int]@.remove(j));
            }
        }
        assert forall|t: Seq<usize>, j: int|
            self@.contains(t) && t.len() > 1 && 0 <= j < t.len() implies self@.contains(
            #[trigger] t.remove(j)) by {
            let k = choose|k: int| 0 <= k < views(self.simplices@).len() && views(self.simplices@)[k] == t;
            assert(self.simplices@[k]@ == t);
        }
        true
    }

    /// All simplices of the complex, each once, in no particular order.
    pub fn simplices(&self) -> (r: &[Simplex])
        ensures
            self.wf() ==> distinct_simplices(r@),
            views(r@).to_set() == self@,
    {
        self.simplices.as_slice()
    }

    /// The simplices of dimension `dim` (with `dim + 1` vertices), each once, in no
    /// particular order.
    pub fn simplices_of_dimension(&self, dim: usize) -> (r: Vec<&Simplex>)
        requires
            self.wf(),
        ensures
            ref_views(r@).no_duplicates(),
            ref_views(r@).to_set() == self@.filter(len_is(dim + 1)),
            r@.len() == dim_count(self@, dim as int),
    {
        let n = self.simplices.len();
        let ghost vs = views(self.simplices@);
        let ghost p = len_is(dim + 1);
        let mut r: Vec<&Simplex> = Vec::new();
        for i in 0..n
            invariant
                n == self.simplices@.len(),
                vs == views(self.simplices@),
                p == len_is(dim + 1),
                distinct_simplices(self.simplices@),
                ref_views(r@) == vs.take(i as int).filter(p),
        {
            let s = &self.simplices[i];
            assert(vs[i as int] == s@);
            assert(s.wf());
            assert(vs.take(i + 1) =~= vs.take(i as int).push(s@));
            proof {
                vs.take(i as int).lemma_filter_push(s@, p);
            }
            if s.dimension() == dim {
                let ghost before = r@;
                r.push(s);
                assert(ref_views(r@) =~= ref_views(before).push(s@));
            }
        }
        assert(vs.take(n as int) =~= vs);
        proof {
            lemma_filter_no_dup(vs, p);
            lemma_filter_to_set(vs, p);
            lemma_filter_count(vs, p);
        }
        r
    }

    /// The f-vector: entry `k` counts the `k`-dimensional simplices.
    pub fn f_vector(&self) -> (r: &[usize])
        requires
            self.wf(),
        ensures
            r@ == self.f(),
            is_f_vector(self@, r@),
    {
        self.f_vector.as_slice()
    }

    /// The Euler characteristic: the alternating sum `f[0] - f[1] + f[2] - ...` of the
    /// f-vector.
    pub fn euler_characteristic(&self) -> (chi: i64)
        requires
            self.wf(),
            self@.len() <= i64::MAX,
        ensures
            chi == alt_sum(self.f()),
    {
        let f = &self.f_vector;
        let m = f.len();
        let mut chi: i64 = 0;
        proof {
            lemma_f_vector_sum(self@, f@);
        }
        assert(f@.take(0) =~= Seq::<usize>::empty());
        for k in 0..m
            invariant
                m == f@.len(),
                f@ == self.f(),
                seq_sum(f@) <= i64::MAX,
                chi == alt_sum(f@.take(k as int)),
        {
            let c = f[k];
            proof {
                let t = f@.take(k + 1);
                assert(t.drop_last() =~= f@.take(k as int));
                assert(t.last() == c);
                assert(alt_sum(t) == alt_sum(f@.take(k as int)) + sign(k as int) * c);
                lemma_sum_prefix(f@, k + 1);
                lemma_alt_sum_bound(t);
                lemma_alt_sum_bound(f@.take(k as int));
            }
            if k % 2 == 0 {
                assert(sign(k as int) == 1);
                chi = chi + c as i64;
            } else {
                assert(sign(k as int) == -1);
                chi = chi - c as i64;
            }
        }
        assert(f@.take(m as int) =~= f@);
        chi
    }

    /// The `k`-skeleton: all simplices of dimension at most `k`.
    pub fn skeleton(&self, k: usize) -> (r: SimplicialComplex)
        requires
            self.wf(),
        ensures
            r.wf(),
            r@ == self@.filter(len_at_most(k + 1)),
    {
        let n = self.simplices.len();
        let ghost vs = views(self.simplices@);
        let ghost p = len_at_most(k + 1);
        let mut kept: Vec<Simplex> = Vec::new();
        for i in 0..n
            invariant
                n == self.simplices@.len(),
                vs == views(self.simplices@),
                p == len_at_most(k + 1),
                distinct_simplices(self.simplices@),
                views(kept@) == vs.take(i as int).filter(p),
                forall|j: int| 0 <= j < kept@.len() ==> (#[trigger] kept@[j]).wf(),
        {
            let s = &self.simplices[i];
            assert(vs[i as int] == s@);
            assert(s.wf());
            assert(vs.take(i + 1) =~= vs.take(i as int).push(s@));
            proof {
                vs.take(i as int).lemma_filter_push(s@, p);
            }
            if s.dimension() <= k {
                let ghost before = kept@;
                kept.push(s.duplicate());
                assert(views(kept@) =~= views(before).push(s@));
            }
        }
        assert(vs.take(n as int) =~= vs);
        proof {
            lemma_filter_no_dup(vs, p);
            lemma_filter_to_set(vs, p);
        }
        let mut skel = SimplicialComplex { simplices: kept, f_vector: Vec::new() };
        skel.recompute_f_vector();
        proof {
            skel.lemma_stored();
            assert(skel@ =~= self@.filter(p));
            assert forall|t: Seq<usize>, i: int|
                skel@.contains(t) && t.len() > 1 && 0 <= i < t.len() implies skel@.contains(
                #[trigger] t.remove(i)) by {
                assert(self@.contains(t.remove(i)));
            }
        }
        skel
    }

    /// Number of vertices (0-simplices).
    pub fn num_vertices(&self) -> (n: usize)
        requires
            self.wf(),
        ensures
            n == dim_count(self@, 0),
    {
        self.simplices_of_dimension(0).len()
    }

    /// Number of edges (1-simplices).
    pub fn num_edges(&self) -> (n: usize)
        requires
            self.wf(),
        ensures
            n == dim_count(self@, 1),
    {
        self.simplices_of_dimension(1).len()
    }

    /// Number of triangles (2-simplices).
    pub fn num_triangles(&self) -> (n: usize)
        requires
            self.wf(),
        ensures
            n == dim_count(self@, 2),
    {
        self.simplices_of_dimension(2).len()
    }

    /// The largest dimension of a simplex in the complex (zero when it is empty).
    pub fn max_dimension(&self) -> (d: usize)
        requires
            self.wf(),
        ensures
            self@.len() == 0 ==> d == 0,
            self@.len() > 0 ==> exists|t: Seq<usize>| self@.contains(t) && t.len() == d + 1,
            forall|t: Seq<usize>| self@.contains(t) ==> t.len() <= d + 1,
            d == if self.f().len() == 0 { 0 } else { self.f().len() - 1 },
    {
        let m = self.f_vector.len();
        proof {
            if self@.len() > 0 {
                let t = self@.choose();
                assert(self@.contains(t));
            } else {
                assert(self@ =~= Set::<Seq<usize>>::empty());
            }
        }
        if m == 0 {
            0
        } else {
            m - 1
        }
    }

    /// The vertex lists of the components of the 1-skeleton: lists that partition the
    /// vertices, each holding exactly the vertices connected to any one of its members.
    /// The order of the lists and of the vertices within them is unspecified.
    pub fn connected_components(&self) -> (r: Vec<Vec<usize>>)
        requires
            self.wf(),
        ensures
            is_component_partition(self@, comp_views(r@)),
            r@.len() == num_components(self@),
            r@.len() <= self@.len(),
    {
        let n = self.simplices.len();
        let ghost s = self@;
        let mut verts: Vec<usize> = Vec::new();
        for i in 0..n
            invariant
                n == self.simplices@.len(),
                s == self@,
                self.wf(),
                verts@.len() <= i,
                forall|x: usize| verts@.contains(x) ==> is_vertex(s, x),
                forall|k: int|
                    0 <= k < i && (#[trigger] self.simplices@[k])@.len() == 1 ==> verts@.contains(
                        self.simplices@[k]@[0],
                    ),
        {
            let sx = &self.simplices[i];
            assert(views(self.simplices@)[i as int] == sx@);
            if sx.len() == 1 {
                let x = sx.vertices()[0];
                assert(sx@ =~= seq![x]);
                assert(s.contains(sx@));
                let ghost before = verts@;
                verts.push(x);
                proof {
                    assert forall|y: usize| verts@.contains(y) implies is_vertex(s, y) by {
                        lemma_push_contains(before, x, y);
                    }
                    assert forall|k: int|
                        0 <= k < i + 1 && (#[trigger] self.simplices@[k])@.len() == 1 implies verts@.contains(
                        self.simplices@[k]@[0]) by {
                        lemma_push_contains(before, x, self.simplices@[k]@[0]);
                    }
                }
            }
        }
        assert forall|x: usize| is_vertex(s, x) implies verts@.contains(x) by {
            let k = choose|k: int| 0 <= k < views(self.simplices@).len() && views(self.simplices@)[k] == seq![x];
            assert(self.simplices@[k]@ == seq![x]);
        }
        let nv = verts.len();
        let mut visited: Vec<usize> = Vec::new();
        let mut comps: Vec<Vec<usize>> = Vec::new();
        for idx in 0..nv
            invariant
                nv == verts@.len(),
                n == self.simplices@.len(),
                s == self@,
                self.wf(),
                forall|x: usize| is_vertex(s, x) <==> verts@.contains(x),
                visited@.no_duplicates(),
                comps@.len() <= visited@.len(),
                visited@.len() <= nv,
                nv <= n,
                forall|x: usize| #[trigger] visited@.contains(x) ==> verts@.contains(x),
                forall|x: usize|
                    #[trigger] visited@.contains(x) <==> exists|i: int|
                        0 <= i < comps@.len() && (#[trigger] comp_views(comps@)[i].contains(x)),
                forall|i: int|
                    0 <= i < comps@.len() ==> (#[trigger] comp_views(comps@)[i]).len() > 0
                        && comp_views(comps@)[i].no_duplicates(),
                forall|i: int, j: int, x: usize|
                    0 <= i < j < comps@.len() && (#[trigger] comp_views(comps@)[i].contains(x))
                        ==> !(#[trigger] comp_views(comps@)[j].contains(x)),
                forall|i: int, x: usize|
                    0 <= i < comps@.len() && (#[trigger] comp_views(comps@)[i].contains(x))
                        ==> connected(s, comp_views(comps@)[i][0], x),
                forall|i: int, x: usize, w: usize|
                    0 <= i < comps@.len() && (#[trigger] comp_views(comps@)[i].contains(x))
                        && #[trigger] adjacent(s, x, w) ==> comp_views(comps@)[i].contains(w),
                forall|k: int| 0 <= k < idx ==> visited@.contains(#[trigger] verts@[k]),
        {
            let start = verts[idx];
            if !vec_contains(&visited, start) {
                let ghost prior = visited@;
                let mut comp: Vec<usize> = Vec::new();
                let mut stack: Vec<usize> = Vec::new();
                visited.push(start);
                comp.push(start);
                stack.push(start);
                proof {
                    assert(verts@.contains(start));
                    lemma_connected_refl(s, start);
                    assert forall|x: usize| #[trigger] visited@.contains(x) implies verts@.contains(x) by {
                        lemma_push_contains(prior, start, x);
                    }
                    crate::counting::lemma_no_dup_contained_len(visited@, verts@);
                    assert(visited@ =~= prior + comp@);
                }
                while stack.len() > 0
                    invariant
                        nv == verts@.len(),
                        s == self@,
                        self.wf(),
                        forall|x: usize| is_vertex(s, x) <==> verts@.contains(x),
                        visited@ == prior + comp@,
                        visited@.no_duplicates(),
                        visited@.len() <= nv,
                        forall|x: usize| #[trigger] visited@.contains(x) ==> verts@.contains(x),
                        comp@.len() > 0,
                        comp@[0] == start,
                        forall|x: usize| #[trigger] comp@.contains(x) ==> connected(s, start, x),
                        stack@.no_duplicates(),
                        forall|x: usize| #[trigger] stack@.contains(x) ==> comp@.contains(x),
                        forall|x: usize, w: usize|
                            #[trigger] comp@.contains(x) && !stack@.contains(x) && #[trigger] adjacent(
                                s,
                                x,
                                w,
                            ) ==> visited@.contains(w),
                    decreases 2 * (nv - visited@.len()) + stack@.len(),
                {
                    let ghost old_stack = stack@;
                    let ghost old_visited = visited@;
                    let ghost old_comp = comp@;
                    let v = stack.pop().unwrap();
                    assert(old_stack =~= stack@.push(v));
                    assert(old_stack.contains(v)) by {
                        assert(old_stack[old_stack.len() - 1] == v);
                    }
                    assert(!stack@.contains(v)) by {
                        if stack@.contains(v) {
                            let k = choose|k: int| 0 <= k < stack@.len() && stack@[k] == v;
                            assert(old_stack[k] == old_stack[old_stack.len() - 1]);
                        }
                    }
                    let ghost mid_stack = stack@;
                    self.visit_neighbors(v, &mut visited, &mut comp, &mut stack, Ghost(verts@));
                    proof {
                        let added = visited@.skip(old_visited.len() as int);
                        assert forall|x: usize| #[trigger] stack@.contains(x) implies comp@.contains(x) by {
                            if mid_stack.contains(x) {
                                let k = choose|k: int| 0 <= k < mid_stack.len() && mid_stack[k] == x;
                                assert(old_stack[k] == x);
                                assert(old_stack.contains(x));
                                assert(old_comp.contains(x));
                                let q = choose|q: int| 0 <= q < old_comp.len() && old_comp[q] == x;
                                assert(comp@[q] == x);
                            } else {
                                let k = choose|k: int| 0 <= k < stack@.len() && stack@[k] == x;
                                assert(added[k - mid_stack.len()] == x);
                                assert(comp@[old_comp.len() + k - mid_stack.len()] == x);
                            }
                        }
                        assert(visited@ =~= prior + comp@);
                        assert forall|x: usize| #[trigger] comp@.contains(x) implies connected(s, start, x) by {
                            let k = choose|k: int| 0 <= k < comp@.len() && comp@[k] == x;
                            if k < old_comp.len() {
                                assert(old_comp[k] == x);
                                assert(old_comp.contains(x));
                            } else {
                                assert(added[k - old_comp.len()] == x);
                                assert(old_comp.contains(v));
                                assert(connected(s, start, v));
                                assert(adjacent(s, v, x));
                                lemma_edge_ends(s, v, x);
                                lemma_connected_step(s, start, v, x);
                            }
                        }
                        assert forall|a: int, b: int| 0 <= a < b < stack@.len() implies stack@[a] != stack@[b] by {
                            if b < mid_stack.len() {
                                assert(old_stack[a] != old_stack[b]);
                            } else if a < mid_stack.len() {
                                assert(old_stack[a] == stack@[a]);
                                assert(old_stack.contains(stack@[a]));
                                assert(old_comp.contains(stack@[a]));
                                assert(old_visited.contains(stack@[a])) by {
                                    let q = choose|q: int| 0 <= q < old_comp.len() && old_comp[q] == stack@[a];
                                    assert(old_visited[prior.len() + q] == stack@[a]);
                                }
                                assert(added[b - mid_stack.len()] == stack@[b]);
                                assert(visited@[old_visited.len() + b - mid_stack.len()] == stack@[b]);
                                let q = choose|q: int| 0 <= q < old_visited.len() && old_visited[q] == stack@[a];
                                assert(visited@[q] == stack@[a]);
                            } else {
                                assert(visited@[old_visited.len() + a - mid_stack.len()] == stack@[a]);
                                assert(visited@[old_visited.len() + b - mid_stack.len()] == stack@[b]);
                            }
                        }
                        assert forall|x: usize, w: usize|
                            #[trigger] comp@.contains(x) && !stack@.contains(x) && #[trigger] adjacent(
                                s,
                                x,
                                w,
                            ) implies visited@.contains(w) by {
                            if x == v {
                            } else {
                                let k = choose|k: int| 0 <= k < comp@.len() && comp@[k] == x;
                                if k < old_comp.len() {
                                    assert(old_comp[k] == x);
                                    if old_stack.contains(x) {
                                        let q = choose|q: int| 0 <= q < old_stack.len() && old_stack[q] == x;
                                        assert(q != old_stack.len() - 1);
                                        assert(mid_stack[q] == x);
                                        assert(stack@[q] == x);
                                        assert(stack@.contains(x));
                                    }
                                    assert(!old_stack.contains(x));
                                    assert(old_comp.contains(x));
                                    assert(old_visited.contains(w));
                                    let q = choose|q: int| 0 <= q < old_visited.len() && old_visited[q] == w;
                                    assert(visited@[q] == w);
                                } else {
                                    assert(stack@[mid_stack.len() + k - old_comp.len()] == x);
                                }
                            }
                        }
                        assert forall|x: usize| #[trigger] visited@.contains(x) implies verts@.contains(x) by {
                            if old_visited.contains(x) {
                            }
                        }
                        crate::counting::lemma_no_dup_contained_len(visited@, verts@);
                    }
                }
                proof {
                    let cv = comp_views(comps@);
                    let ghost c = comp@;
                    assert forall|x: usize, w: usize| c.contains(x) && adjacent(s, x, w) implies c.contains(w) by {
                        assert(!stack@.contains(x));
                        assert(visited@.contains(w));
                        if !c.contains(w) {
                            let q = choose|q: int| 0 <= q < visited@.len() && visited@[q] == w;
                            assert(q < prior.len());
                            assert(prior.contains(w));
                            let i = choose|i: int| 0 <= i < comps@.len() && (#[trigger] cv[i].contains(w));
                            assert(adjacent(s, w, x));
                            assert(cv[i].contains(x));
                            assert(prior.contains(x));
                            let k = choose|k: int| 0 <= k < c.len() && c[k] == x;
                            let q2 = choose|q2: int| 0 <= q2 < prior.len() && prior[q2] == x;
                            assert(visited@[prior.len() + k] == visited@[q2]);
                        }
                    }
                }
                let ghost old_comps = comps@;
                comps.push(comp);
                proof {
                    let cv = comp_views(comps@);
                    let ocv = comp_views(old_comps);
                    let c = cv[cv.len() - 1];
                    assert(forall|i: int| 0 <= i < old_comps.len() ==> cv[i] == ocv[i]);
                    assert forall|x: usize|
                        #[trigger] visited@.contains(x) <==> exists|i: int|
                            0 <= i < comps@.len() && (#[trigger] cv[i].contains(x)) by {
                        if visited@.contains(x) {
                            let q = choose|q: int| 0 <= q < visited@.len() && visited@[q] == x;
                            if q < prior.len() {
                                assert(prior.contains(x));
                                let i = choose|i: int| 0 <= i < old_comps.len() && (#[trigger] ocv[i].contains(x));
                                assert(cv[i].contains(x));
                            } else {
                                assert(c[q - prior.len()] == x);
                                assert(cv[cv.len() - 1].contains(x));
                            }
                        }
                        if exists|i: int| 0 <= i < comps@.len() && (#[trigger] cv[i].contains(x)) {
                            let i = choose|i: int| 0 <= i < comps@.len() && (#[trigger] cv[i].contains(x));
                            if i < old_comps.len() {
                                assert(ocv[i].contains(x));
                                assert(prior.contains(x));
                                let q = choose|q: int| 0 <= q < prior.len() && prior[q] == x;
                                assert(visited@[q] == x);
                            } else {
                                let k = choose|k: int| 0 <= k < c.len() && c[k] == x;
                                assert(visited@[prior.len() + k] == x);
                            }
                        }
                    }
                    assert(c.no_duplicates()) by {
                        assert forall|a: int, b: int| 0 <= a < b < c.len() implies c[a] != c[b] by {
                            assert(visited@[prior.len() + a] != visited@[prior.len() + b]);
                        }
                    }
                    assert forall|i: int, j: int, x: usize|
                        0 <= i < j < comps@.len() && (#[trigger] cv[i].contains(x))
                            implies !(#[trigger] cv[j].contains(x)) by {
                        if j == comps@.len() - 1 {
                            assert(ocv[i].contains(x));
                            assert(prior.contains(x));
                            if c.contains(x) {
                                let k = choose|k: int| 0 <= k < c.len() && c[k] == x;
                                let q = choose|q: int| 0 <= q < prior.len() && prior[q] == x;
                                assert(visited@[prior.len() + k] == visited@[q]);
                            }
                        } else {
                            assert(ocv[i].contains(x));
                        }
                    }
                    assert forall|k: int| 0 <= k < idx + 1 implies visited@.contains(#[trigger] verts@[k]) by {
                        if k < idx {
                            let q = choose|q: int| 0 <= q < prior.len() && prior[q] == verts@[k];
                            assert(visited@[q] == verts@[k]);
                        } else {
                            assert(visited@[prior.len() as int] == start);
                        }
                    }
                }
            }
        }
        proof {
            let cv = comp_views(comps@);
            assert forall|v: usize| is_vertex(s, v) implies exists|i: int| 0 <= i < cv.len() && (#[trigger] cv[i].contains(v)) by {
                assert(verts@.contains(v));
                let k = choose|k: int| 0 <= k < nv && verts@[k] == v;
                assert(visited@.contains(verts@[k]));
            }
            assert forall|i: int, u: usize, v: usize|
                0 <= i < cv.len() && (#[trigger] cv[i].contains(u)) && (#[trigger] cv[i].contains(v))
                    implies connected(s, u, v) by {
                lemma_connected_symm(s, cv[i][0], u);
                lemma_connected_trans(s, u, cv[i][0], v);
            }
            assert forall|i: int, u: usize, v: usize|
                0 <= i < cv.len() && (#[trigger] cv[i].contains(u)) && #[trigger] connected(s, u, v)
                    implies cv[i].contains(v) by {
                let p = choose|p: Seq<usize>| #[trigger] walk_between(s, p, u, v);
                lemma_closed_contains_walk(s, cv[i], p);
            }
            crate::graph::lemma_partition_count(s, cv);
            self.lemma_stored();
        }
        comps
    }

    /// Visit the unvisited neighbours of `v`, appending each (in the same order) to
    /// `visited`, `comp` and `stack`.
    fn visit_neighbors(
        &self,
        v: usize,
        visited: &mut Vec<usize>,
        comp: &mut Vec<usize>,
        stack: &mut Vec<usize>,
        Ghost(verts): Ghost<Seq<usize>>,
    )
        requires
            self.wf(),
            old(visited)@.no_duplicates(),
            forall|x: usize| is_vertex(self@, x) <==> verts.contains(x),
        ensures
            final(visited)@ == old(visited)@ + final(visited)@.skip(old(visited)@.len() as int),
            final(comp)@ == old(comp)@ + final(visited)@.skip(old(visited)@.len() as int),
            final(stack)@ == old(stack)@ + final(visited)@.skip(old(visited)@.len() as int),
            forall|k: int|
                old(visited)@.len() <= k < final(visited)@.len() ==> adjacent(
                    self@,
                    v,
                    #[trigger] final(visited)@[k],
                ),
            final(visited)@.no_duplicates(),
            forall|x: usize| #[trigger] final(visited)@.contains(x) ==> (old(visited)@.contains(x) || verts.contains(x)),
            forall|w: usize| adjacent(self@, v, w) ==> final(visited)@.contains(w),
    {
        let n = self.simplices.len();
        let ghost s = self@;
        let ghost v0 = visited@;
        let ghost c0 = comp@;
        let ghost st0 = stack@;
        for e in 0..n
            invariant
                n == self.simplices@.len(),
                s == self@,
                self.wf(),
                forall|x: usize| is_vertex(s, x) <==> verts.contains(x),
                visited@.len() >= v0.len(),
                visited@ == v0 + visited@.skip(v0.len() as int),
                comp@ == c0 + visited@.skip(v0.len() as int),
                stack@ == st0 + visited@.skip(v0.len() as int),
                forall|k: int| v0.len() <= k < visited@.len() ==> adjacent(s, v, #[trigger] visited@[k]),
                visited@.no_duplicates(),
                forall|x: usize| #[trigger] visited@.contains(x) ==> (v0.contains(x) || verts.contains(x)),
                forall|k: int|
                    0 <= k < e && (#[trigger] self.simplices@[k])@.len() == 2 ==> (
                    self.simplices@[k]@[0] == v ==> visited@.contains(self.simplices@[k]@[1])) && (
                    self.simplices@[k]@[1] == v ==> visited@.contains(self.simplices@[k]@[0])),
        {
            let sx = &self.simplices[e];
            assert(views(self.simplices@)[e as int] == sx@);
            if sx.len() == 2 {
                let a = sx.vertices()[0];
                let b = sx.vertices()[1];
                assert(sx@ =~= seq![a, b]);
                assert(s.contains(seq![a, b]));
                let mut other: Option<usize> = None;
                if a == v {
                    other = Some(b);
                } else if b == v {
                    other = Some(a);
                }
                if let Some(w) = other {
                    assert(adjacent(s, v, w));
                    if !vec_contains(visited, w) {
                        let ghost pv = visited@;
                        proof {
                            lemma_edge_ends(s, v, w);
                        }
                        visited.push(w);
                        comp.push(w);
                        stack.push(w);
                        proof {
                            assert(visited@.skip(v0.len() as int) =~= pv.skip(v0.len() as int).push(w));
                            assert(visited@ =~= v0 + visited@.skip(v0.len() as int));
                            assert(comp@ =~= c0 + visited@.skip(v0.len() as int));
                            assert(stack@ =~= st0 + visited@.skip(v0.len() as int));
                            assert forall|x: usize| #[trigger] visited@.contains(x) implies (v0.contains(x) || verts.contains(x)) by {
                                lemma_push_contains(pv, w, x);
                            }
                            assert forall|y: usize| pv.contains(y) implies visited@.contains(y) by {
                                lemma_push_contains(pv, w, y);
                            }
                            assert(visited@.contains(w)) by {
                                lemma_push_contains(pv, w, w);
                            }
                        }
                    }
                }
            }
        }
        assert forall|w: usize| adjacent(s, v, w) implies visited@.contains(w) by {
            let e = if s.contains(seq![v, w]) { seq![v, w] } else { seq![w, v] };
            let k = choose|k: int| 0 <= k < views(self.simplices@).len() && views(self.simplices@)[k] == e;
            assert(self.simplices@[k]@ == e);
        }
    }

    /// Remove one simplex (not its faces or cofaces).
    pub(crate) fn remove_simplex(&mut self, s: &Simplex)
        requires
            old(self).stored_ok(),
            old(self)@.contains(s@),
        ensures
            final(self).stored_ok(),
            final(self)@ == old(self)@.remove(s@),
            final(self)@.finite(),
            all_valid(final(self)@),
    {
        let ghost before = self@;
        let mut v: Vec<Simplex> = Vec::new();
        std::mem::swap(&mut v, &mut self.simplices);
        let ghost vs = views(v@);
        assert(vs.to_set() == before);
        let n = v.len();
        let mut idx: usize = 0;
        while idx < n && !v[idx].same_as(s)
            invariant
                n == v@.len(),
                idx <= n,
                vs == views(v@),
                forall|k: int| 0 <= k < idx ==> vs[k] != s@,
            decreases n - idx,
        {
            assert(vs[idx as int] == v@[idx as int]@);
            idx = idx + 1;
        }
        assert(idx < n) by {
            if idx == n {
                assert(vs.contains(s@));
                let k = choose|k: int| 0 <= k < vs.len() && vs[k] == s@;
                assert(false);
            }
        }
        assert(vs[idx as int] == s@);
        let ghost old_v = v@;
        v.remove(idx);
        assert(views(v@) =~= vs.remove(idx as int));
        assert forall|t: Seq<usize>| views(v@).contains(t) <==> before.remove(s@).contains(t) by {
            if views(v@).contains(t) {
                let k = choose|k: int| 0 <= k < views(v@).len() && views(v@)[k] == t;
                let k2 = if k < idx { k } else { k + 1 };
                assert(vs[k2] == t);
                assert(k2 != idx);
                assert(vs[k2] != vs[idx as int]);
            }
            if before.remove(s@).contains(t) {
                let k = choose|k: int| 0 <= k < vs.len() && vs[k] == t;
                assert(k != idx);
                let k2 = if k < idx { k } else { k - 1 };
                assert(views(v@)[k2] == t);
            }
        }
        assert forall|a: int, b: int| 0 <= a < b < views(v@).len() implies views(v@)[a] != views(v@)[b] by {
            let a2 = if a < idx { a } else { a + 1 };
            let b2 = if b < idx { b } else { b + 1 };
            assert(vs[a2] != vs[b2]);
        }
        assert forall|k: int| 0 <= k < v@.len() implies (#[trigger] v@[k]).wf() by {
            let k2 = if k < idx { k } else { k + 1 };
            assert(old_v[k2].wf());
            assert(v@[k] == old_v[k2]);
        }
        self.simplices = v;
        self.recompute_f_vector();
        proof {
            self.lemma_stored();
            assert(self@ =~= before.remove(s@));
        }
    }

    /// Remove every simplex having `v` as a vertex; the vertex lists of the removed
    /// simplices are returned.
    pub(crate) fn remove_containing(&mut self, v: usize) -> (removed: Vec<Vec<usize>>)
        requires
            old(self).wf(),
        ensures
            final(self).wf(),
            final(self)@ == old(self)@.filter(avoids(v)),
            comp_views(removed@).no_duplicates(),
            comp_views(removed@).to_set() == old(self)@.filter(touches(v)),
    {
        let ghost before = self@;
        let mut all: Vec<Simplex> = Vec::new();
        std::mem::swap(&mut all, &mut self.simplices);
        let ghost vs = views(all@);
        let n = all.len();
        let mut kept: Vec<Simplex> = Vec::new();
        let mut removed: Vec<Vec<usize>> = Vec::new();
        for i in 0..n
            invariant
                n == all@.len(),
                vs == views(all@),
                distinct_simplices(all@),
                views(kept@) == vs.take(i as int).filter(avoids(v)),
                comp_views(removed@) == vs.take(i as int).filter(touches(v)),
                forall|k: int| 0 <= k < kept@.len() ==> (#[trigger] kept@[k]).wf(),
        {
            let x = &all[i];
            assert(vs[i as int] == x@);
            assert(x.wf());
            assert(vs.take(i + 1) =~= vs.take(i as int).push(x@));
            proof {
                vs.take(i as int).lemma_filter_push(x@, avoids(v));
                vs.take(i as int).lemma_filter_push(x@, touches(v));
            }
            if x.has_vertex(v) {
                let ghost before_r = removed@;
                let w = x.to_vec();
                removed.push(w);
                assert(comp_views(removed@) =~= comp_views(before_r).push(x@));
            } else {
                let ghost before_k = kept@;
                kept.push(x.duplicate());
                assert(views(kept@) =~= views(before_k).push(x@));
            }
        }
        assert(vs.take(n as int) =~= vs);
        proof {
            lemma_filter_no_dup(vs, avoids(v));
            lemma_filter_no_dup(vs, touches(v));
            lemma_filter_to_set(vs, avoids(v));
            lemma_filter_to_set(vs, touches(v));
        }
        self.simplices = kept;
        self.recompute_f_vector();
        proof {
            self.lemma_stored();
            assert(self@ =~= before.filter(avoids(v)));
            assert forall|t: Seq<usize>, i: int|
                self@.contains(t) && t.len() > 1 && 0 <= i < t.len() implies self@.contains(
                #[trigger] t.remove(i)) by {
                assert(before.contains(t.remove(i)));
                if t.remove(i).contains(v) {
                    let k = choose|k: int| 0 <= k < t.remove(i).len() && t.remove(i)[k] == v;
                    let k2 = if k < i { k } else { k + 1 };
                    assert(t[k2] == v);
                }
            }
        }
        removed
    }

    /// The vertices of the complex, each once.
    pub(crate) fn vertex_list(&self) -> (r: Vec<usize>)
        requires
            self.wf(),
        ensures
            r@.no_duplicates(),
            forall|x: usize| r@.contains(x) <==> is_vertex(self@, x),
            r@.len() == dim_count(self@, 0),
    {
        let ks = self.simplices_of_dimension(0);
        let ghost kv = ref_views(ks@);
        let n = ks.len();
        let mut r: Vec<usize> = Vec::new();
        for i in 0..n
            invariant
                n == ks@.len(),
                kv == ref_views(ks@),
                kv.no_duplicates(),
                kv.to_set() == self@.filter(len_is(1)),
                r@.len() == i,
                forall|k: int| 0 <= k < i ==> kv[k] == seq![#[trigger] r@[k]],
        {
            let x = ks[i];
            assert(kv[i as int] == x@);
            assert(kv.to_set().contains(x@));
            assert(self@.filter(len_is(1)).contains(x@));
            let y = x.vertices()[0];
            assert(x@ =~= seq![y]);
            r.push(y);
        }
        assert forall|a: int, b: int| 0 <= a < b < r@.len() implies r@[a] != r@[b] by {
            assert(kv[a] != kv[b]);
        }
        assert forall|x: usize| r@.contains(x) <==> is_vertex(self@, x) by {
            if r@.contains(x) {
                let k = choose|k: int| 0 <= k < r@.len() && r@[k] == x;
                assert(kv.to_set().contains(kv[k]));
            }
            if is_vertex(self@, x) {
                assert(self@.filter(len_is(1)).contains(seq![x]));
                assert(kv.to_set().contains(seq![x]));
                let k = choose|k: int| 0 <= k < kv.len() && kv[k] == seq![x];
                assert(seq![r@[k]][0] == seq![x][0]);
            }
        }
        r
    }

    /// The closed neighbourhood of `v` in the 1-skeleton: `v` and the vertices that
    /// share an edge with it.
    pub(crate) fn closed_neighborhood(&self, v: usize) -> (r: Vec<usize>)
        requires
            self.wf(),
        ensures
            forall|u: usize| r@.contains(u) <==> (u == v || adjacent(self@, v, u)),
    {
        let n = self.simplices.len();
        let ghost s = self@;
        let mut r: Vec<usize> = Vec::new();
        r.push(v);
        assert(r@[0] == v);
        for e in 0..n
            invariant
                n == self.simplices@.len(),
                s == self@,
                self.wf(),
                forall|u: usize| r@.contains(u) ==> (u == v || adjacent(s, v, u)),
                r@.contains(v),
                forall|k: int|
                    0 <= k < e && (#[trigger] self.simplices@[k])@.len() == 2 ==> (
                    self.simplices@[k]@[0] == v ==> r@.contains(self.simplices@[k]@[1])) && (
                    self.simplices@[k]@[1] == v ==> r@.contains(self.simplices@[k]@[0])),
        {
            let sx = &self.simplices[e];
            assert(views(self.simplices@)[e as int] == sx@);
            if sx.len() == 2 {
                let a = sx.vertices()[0];
                let b = sx.vertices()[1];
                assert(sx@ =~= seq![a, b]);
                assert(s.contains(seq![a, b]));
                let ghost before = r@;
                if a == v {
                    r.push(b);
                } else if b == v {
                    r.push(a);
                }
                proof {
                    assert forall|u: usize| r@.contains(u) implies (u == v || adjacent(s, v, u)) by {
                        if r@ != before {
                            lemma_push_contains(before, r@.last(), u);
                            assert(r@ == before.push(r@.last()));
                        }
                    }
                    assert forall|u: usize| before.contains(u) implies r@.contains(u) by {
                        if r@ != before {
                            lemma_push_contains(before, r@.last(), u);
                            assert(r@ == before.push(r@.last()));
                        }
                    }
                    if r@ != before {
                        assert(r@[r@.len() - 1] == r@.last());
                    }
                }
            }
        }
        assert forall|u: usize| adjacent(s, v, u) implies r@.contains(u) by {
            let e = if s.contains(seq![v, u]) { seq![v, u] } else { seq![u, v] };
            let k = choose|k: int| 0 <= k < views(self.simplices@).len() && views(self.simplices@)[k] == e;
            assert(self.simplices@[k]@ == e);
        }
        r
    }

    /// A copy of this complex.
    pub(crate) fn duplicate(&self) -> (r: SimplicialComplex)
        requires
            self.wf(),
        ensures
            r.wf(),
            r@ == self@,
            r.f() == self.f(),
    {
        let n = self.simplices.len();
        let mut v: Vec<Simplex> = Vec::new();
        for i in 0..n
            invariant
                n == self.simplices@.len(),
                v@.len() == i,
                forall|j: int| 0 <= j < i ==> (#[trigger] v@[j])@ == self.simplices@[j]@,
        {
            v.push(self.simplices[i].duplicate());
        }
        let f = self.f_vector.clone();
        assert(f@ =~= self.f_vector@);
        let r = SimplicialComplex { simplices: v, f_vector: f };
        assert(views(v@) =~= views(self.simplices@));
        r
    }
}

impl Default for SimplicialComplex {
    fn default() -> (k: Self)
        ensures
            k.wf(),
            k@ == Set::<Seq<usize>>::empty(),
    {
        Self::new()
    }
}

} // verus!
