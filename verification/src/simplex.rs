//! Individual simplex operations.
//!
//! An *n*-simplex is given by its *n + 1* vertices. Vertices are stored as a
//! strictly increasing `Vec<usize>`; construction sorts and deduplicates.
use vstd::prelude::*;

verus! {

/// The entries of `s` increase strictly from left to right.
pub open spec fn strictly_sorted(s: Seq<usize>) -> bool {
    forall|i: int, j: int| 0 <= i < j < s.len() ==> s[i] < s[j]
}

/// A vertex list that can belong to a simplex: non-empty and strictly increasing.
pub open spec fn valid_simplex(s: Seq<usize>) -> bool {
    s.len() > 0 && strictly_sorted(s)
}

/// Every vertex of `t` is a vertex of `s`.
pub open spec fn is_face(t: Seq<usize>, s: Seq<usize>) -> bool {
    forall|i: int| 0 <= i < t.len() ==> s.contains(#[trigger] t[i])
}

/// A simplex represented by its strictly increasing vertex list.
#[derive(Debug, Clone, PartialEq, Eq, Hash)]
pub struct Simplex {
    pub(crate) vertices: Vec<usize>,
}

impl View for Simplex {
    type V = Seq<usize>;

    closed spec fn view(&self) -> Seq<usize> {
        self.vertices@
    }
}

impl Simplex {
    /// The simplex is well formed: its vertex list is non-empty and strictly increasing.
    pub open spec fn wf(&self) -> bool {
        valid_simplex(self@)
    }

    /// Construct a simplex from vertex indices, sorting them and removing repeats,
    /// so that `{2, 0, 1}` and `{0, 1, 2}` give the same simplex.
    pub fn from_vertices(vertices: Vec<usize>) -> (s: Simplex)
        requires
            vertices.len() > 0,
        ensures
            s.wf(),
            s@.to_set() == vertices@.to_set(),
    {
        let mut v: Vec<usize> = Vec::new();
        let n = vertices.len();
        for i in 0..n
            invariant
                n == vertices.len(),
                strictly_sorted(v@),
                v@.to_set() == vertices@.take(i as int).to_set(),
                i > 0 ==> v@.len() > 0,
        {
            let x = vertices[i];
            let mut pos: usize = 0;
            while pos < v.len() && v[pos] < x
                invariant
                    pos <= v.len(),
                    forall|k: int| 0 <= k < pos ==> v@[k] < x,
                decreases v.len() - pos,
            {
                pos = pos + 1;
            }
            let ghost old_v = v@;
            assert(vertices@.take(i + 1) =~= vertices@.take(i as int).push(x));
            if pos < v.len() && v[pos] == x {
                assert(v@.to_set().contains(x));
                assert(vertices@.take(i as int).push(x).to_set() =~= v@.to_set()) by {
                    lemma_push_to_set(vertices@.take(i as int), x);
                }
            } else {
                v.insert(pos, x);
                assert(v@ =~= old_v.insert(pos as int, x));
                proof {
                    lemma_insert_to_set(old_v, pos as int, x);
                    lemma_push_to_set(vertices@.take(i as int), x);
                }
                assert(v@.to_set() =~= vertices@.take(i + 1).to_set());
                assert forall|a: int, b: int| 0 <= a < b < v@.len() implies v@[a] < v@[b] by {
                    if a < pos && b < pos {
                    } else if a < pos && b == pos {
                    } else if a < pos {
                        assert(old_v[a] < old_v[b - 1]);
                    } else if a == pos {
                        assert(x <= old_v[pos as int]);
                        assert(old_v[pos as int] != x);
                        if b - 1 > pos {
                            assert(old_v[pos as int] < old_v[b - 1]);
                        }
                    } else {
                        assert(old_v[a - 1] < old_v[b - 1]);
                    }
                }
            }
        }
        assert(vertices@.take(n as int) =~= vertices@);
        Simplex { vertices: v }
    }

    /// The sorted vertex list.
    pub fn vertices(&self) -> (r: &[usize])
        ensures
            r@ == self@,
    {
        self.vertices.as_slice()
    }

    /// Dimension of the simplex: the number of vertices minus one (zero if there are none).
    pub fn dimension(&self) -> (d: usize)
        ensures
            d == if self@.len() == 0 { 0 } else { self@.len() - 1 },
    {
        if self.vertices.len() == 0 {
            0
        } else {
            self.vertices.len() - 1
        }
    }

    /// Number of vertices.
    pub fn len(&self) -> (n: usize)
        ensures
            n == self@.len(),
    {
        self.vertices.len()
    }

    /// True if the simplex has no vertices (never so for a well-formed simplex).
    pub fn is_empty(&self) -> (b: bool)
        ensures
            b == (self@.len() == 0),
    {
        self.vertices.len() == 0
    }
}


/// The vertex lists of a sequence of simplices.
pub open spec fn views(s: Seq<Simplex>) -> Seq<Seq<usize>> {
    s.map_values(|x: Simplex| x@)
}

/// The `k`-element subsequences of `s`, in lexicographic order of their positions.
pub open spec fn combos(s: Seq<usize>, k: nat) -> Seq<Seq<usize>>
    decreases s.len(),
{
    if k == 0 {
        seq![Seq::<usize>::empty()]
    } else if s.len() == 0 {
        Seq::empty()
    } else {
        combos(s.drop_first(), (k - 1) as nat).map_values(|c: Seq<usize>| seq![s[0]] + c) + combos(
            s.drop_first(),
            k,
        )
    }
}

/// The non-empty subsequences of `s` with at most `m` elements: first those of one
/// element, then those of two, and so on.
pub open spec fn faces_upto(s: Seq<usize>, m: nat) -> Seq<Seq<usize>>
    decreases m,
{
    if m == 0 {
        Seq::empty()
    } else {
        faces_upto(s, (m - 1) as nat) + combos(s, m)
    }
}

/// Every non-empty subsequence of `s`, ordered by size.
pub open spec fn all_faces_of(s: Seq<usize>) -> Seq<Seq<usize>> {
    faces_upto(s, s.len())
}

/// The faces of `s` obtained by leaving out one vertex; none for a single vertex.
pub open spec fn boundary_of(s: Seq<usize>) -> Seq<Seq<usize>> {
    if s.len() <= 1 {
        Seq::empty()
    } else {
        Seq::new(s.len(), |i: int| s.remove(i))
    }
}

/// The simplices spanned by faces of the members of `ss`.
pub open spec fn closure_set(ss: Seq<Seq<usize>>) -> Set<Seq<usize>> {
    Set::new(
        |t: Seq<usize>|
            valid_simplex(t) && exists|i: int| 0 <= i < ss.len() && is_face(t, #[trigger] ss[i]),
    )
}

/// `t` and `s` have no vertex in common.
pub open spec fn vertex_disjoint(t: Seq<usize>, s: Seq<usize>) -> bool {
    forall|i: int| 0 <= i < t.len() ==> !s.contains(#[trigger] t[i])
}

/// Removing one entry of a strictly increasing sequence leaves it strictly increasing.
pub proof fn lemma_remove_sorted(s: Seq<usize>, i: int)
    requires
        strictly_sorted(s),
        0 <= i < s.len(),
    ensures
        strictly_sorted(s.remove(i)),
        s.remove(i).len() == s.len() - 1,
        is_face(s.remove(i), s),
{
    let t = s.remove(i);
    assert forall|a: int, b: int| 0 <= a < b < t.len() implies t[a] < t[b] by {
        let a2 = if a < i { a } else { a + 1 };
        let b2 = if b < i { b } else { b + 1 };
        assert(s[a2] < s[b2]);
    }
    assert forall|a: int| 0 <= a < t.len() implies s.contains(#[trigger] t[a]) by {
        let a2 = if a < i { a } else { a + 1 };
        assert(s[a2] == t[a]);
    }
}

/// There are no subsequences longer than the sequence itself.
pub proof fn lemma_combos_too_long(s: Seq<usize>, k: nat)
    requires
        k > s.len(),
    ensures
        combos(s, k) == Seq::<Seq<usize>>::empty(),
    decreases s.len(),
{
    if s.len() > 0 {
        lemma_combos_too_long(s.drop_first(), (k - 1) as nat);
        lemma_combos_too_long(s.drop_first(), k);
        assert(combos(s, k) =~= Seq::<Seq<usize>>::empty());
    }
}

/// Each member of `combos(s, k)` has `k` entries, increases strictly, and is a face of `s`.
pub proof fn lemma_combos_sound(s: Seq<usize>, k: nat)
    requires
        strictly_sorted(s),
    ensures
        forall|j: int|
            0 <= j < combos(s, k).len() ==> {
                &&& (#[trigger] combos(s, k)[j]).len() == k
                &&& strictly_sorted(combos(s, k)[j])
                &&& is_face(combos(s, k)[j], s)
            },
    decreases s.len(),
{
    if k == 0 {
    } else if s.len() == 0 {
    } else {
        let r = s.drop_first();
        lemma_combos_sound(r, (k - 1) as nat);
        lemma_combos_sound(r, k);
        let with = combos(r, (k - 1) as nat);
        let mapped = with.map_values(|c: Seq<usize>| seq![s[0]] + c);
        let without = combos(r, k);
        assert forall|j: int| 0 <= j < combos(s, k).len() implies {
            &&& (#[trigger] combos(s, k)[j]).len() == k
            &&& strictly_sorted(combos(s, k)[j])
            &&& is_face(combos(s, k)[j], s)
        } by {
            if j < mapped.len() {
                let c = with[j];
                let t = seq![s[0]] + c;
                assert(combos(s, k)[j] == t);
                assert forall|a: int, b: int| 0 <= a < b < t.len() implies t[a] < t[b] by {
                    if a == 0 {
                        assert(r.contains(c[b - 1]));
                        let m = choose|m: int| 0 <= m < r.len() && r[m] == c[b - 1];
                        assert(s[0] < s[m + 1]);
                    } else {
                        assert(c[a - 1] < c[b - 1]);
                    }
                }
                assert forall|a: int| 0 <= a < t.len() implies s.contains(#[trigger] t[a]) by {
                    if a == 0 {
                        assert(s[0] == t[0]);
                    } else {
                        assert(r.contains(c[a - 1]));
                        let m = choose|m: int| 0 <= m < r.len() && r[m] == c[a - 1];
                        assert(s[m + 1] == t[a]);
                    }
                }
            } else {
                let c = without[j - mapped.len()];
                assert(combos(s, k)[j] == c);
                assert forall|a: int| 0 <= a < c.len() implies s.contains(#[trigger] c[a]) by {
                    assert(r.contains(c[a]));
                    let m = choose|m: int| 0 <= m < r.len() && r[m] == c[a];
                    assert(s[m + 1] == c[a]);
                }
            }
        }
    }
}

/// Every strictly increasing face of a strictly increasing `s` is among its subsequences.
pub proof fn lemma_combos_complete(s: Seq<usize>, t: Seq<usize>)
    requires
        strictly_sorted(s),
        strictly_sorted(t),
        is_face(t, s),
    ensures
        combos(s, t.len()).contains(t),
    decreases s.len(),
{
    if t.len() == 0 {
        assert(combos(s, 0)[0] =~= t);
    } else {
        assert(s.contains(t[0]));
        let r = s.drop_first();
        let k = t.len();
        let with = combos(r, (k - 1) as nat);
        let mapped = with.map_values(|c: Seq<usize>| seq![s[0]] + c);
        if t[0] == s[0] {
            let t2 = t.drop_first();
            assert forall|a: int| 0 <= a < t2.len() implies r.contains(#[trigger] t2[a]) by {
                assert(s.contains(t[a + 1]));
                let m = choose|m: int| 0 <= m < s.len() && s[m] == t[a + 1];
                assert(t[0] < t[a + 1]);
                if m == 0 {
                    assert(false);
                }
                assert(r[m - 1] == t2[a]);
            }
            lemma_combos_complete(r, t2);
            let j = choose|j: int| 0 <= j < with.len() && with[j] == t2;
            assert(mapped[j] =~= t);
            assert(combos(s, k)[j] == mapped[j]);
        } else {
            let m0 = choose|m: int| 0 <= m < s.len() && s[m] == t[0];
            assert(m0 > 0) by {
                if m0 == 0 {
                    assert(false);
                }
            }
            assert forall|a: int| 0 <= a < t.len() implies r.contains(#[trigger] t[a]) by {
                assert(s.contains(t[a]));
                let m = choose|m: int| 0 <= m < s.len() && s[m] == t[a];
                if a > 0 {
                    assert(t[0] < t[a]);
                }
                if m == 0 {
                    assert(s[0] < s[m0]);
                    assert(false);
                }
                assert(r[m - 1] == t[a]);
            }
            lemma_combos_complete(r, t);
            let j = choose|j: int| 0 <= j < combos(r, k).len() && combos(r, k)[j] == t;
            assert(combos(s, k)[mapped.len() + j] == t);
        }
    }
}

/// The members of `faces_upto(s, m)` are exactly the strictly increasing faces of `s`
/// with between one and `m` entries.
pub proof fn lemma_faces_upto(s: Seq<usize>, m: nat, t: Seq<usize>)
    requires
        strictly_sorted(s),
    ensures
        faces_upto(s, m).contains(t) <==> (1 <= t.len() <= m && strictly_sorted(t) && is_face(
            t,
            s,
        )),
    decreases m,
{
    if m > 0 {
        lemma_faces_upto(s, (m - 1) as nat, t);
        lemma_combos_sound(s, m);
        let a = faces_upto(s, (m - 1) as nat);
        let b = combos(s, m);
        if faces_upto(s, m).contains(t) {
            let j = choose|j: int| 0 <= j < a.len() + b.len() && (a + b)[j] == t;
            if j < a.len() {
                assert(a.contains(t));
            } else {
                assert(b[j - a.len()] == t);
            }
        }
        if 1 <= t.len() <= m && strictly_sorted(t) && is_face(t, s) {
            if t.len() == m {
                lemma_combos_complete(s, t);
                let j = choose|j: int| 0 <= j < b.len() && b[j] == t;
                assert((a + b)[a.len() + j] == t);
            } else {
                let j = choose|j: int| 0 <= j < a.len() && a[j] == t;
                assert((a + b)[j] == t);
            }
        }
    }
}

/// A strictly increasing face of a strictly increasing sequence is no longer than it.
pub proof fn lemma_face_len(s: Seq<usize>, t: Seq<usize>)
    requires
        strictly_sorted(s),
        strictly_sorted(t),
        is_face(t, s),
    ensures
        t.len() <= s.len(),
{
    lemma_combos_complete(s, t);
    if t.len() > s.len() {
        lemma_combos_too_long(s, t.len());
    }
}

/// The members of `all_faces_of(s)` are exactly the simplices spanned by faces of `s`.
pub proof fn lemma_all_faces_of(s: Seq<usize>, t: Seq<usize>)
    requires
        strictly_sorted(s),
    ensures
        all_faces_of(s).contains(t) <==> (valid_simplex(t) && is_face(t, s)),
{
    lemma_faces_upto(s, s.len(), t);
    if valid_simplex(t) && is_face(t, s) {
        lemma_face_len(s, t);
    }
}


impl Simplex {
    /// A copy of this simplex.
    pub(crate) fn duplicate(&self) -> (r: Simplex)
        ensures
            r@ == self@,
    {
        let v = self.vertices.clone();
        assert(v@ =~= self.vertices@);
        Simplex { vertices: v }
    }

    /// The edge with the vertices `a < b`.
    pub(crate) fn edge(a: usize, b: usize) -> (s: Simplex)
        requires
            a < b,
        ensures
            s@ == seq![a, b],
            s.wf(),
    {
        let mut v: Vec<usize> = Vec::new();
        v.push(a);
        v.push(b);
        assert(v@ =~= seq![a, b]);
        Simplex { vertices: v }
    }

    /// Is `v` a vertex of this simplex?
    pub(crate) fn has_vertex(&self, v: usize) -> (b: bool)
        ensures
            b == self@.contains(v),
    {
        vec_contains(&self.vertices, v)
    }

    /// A copy of the vertex list.
    pub(crate) fn to_vec(&self) -> (r: Vec<usize>)
        ensures
            r@ == self@,
    {
        let r = self.vertices.clone();
        assert(r@ =~= self.vertices@);
        r
    }

    /// Do `self` and `other` have the same vertex list?
    pub(crate) fn same_as(&self, other: &Simplex) -> (b: bool)
        ensures
            b == (self@ == other@),
    {
        let n = self.vertices.len();
        if n != other.vertices.len() {
            return false;
        }
        for i in 0..n
            invariant
                n == self@.len(),
                n == other@.len(),
                forall|k: int| 0 <= k < i ==> self@[k] == other@[k],
        {
            if self.vertices[i] != other.vertices[i] {
                return false;
            }
        }
        assert(self@ =~= other@);
        true
    }

    /// Is `self` a face of `other`? That is, is every vertex of `self` also a vertex
    /// of `other`? Every simplex is a face of itself.
    pub fn is_face_of(&self, other: &Simplex) -> (b: bool)
        ensures
            b == is_face(self@, other@),
    {
        let n = self.vertices.len();
        for i in 0..n
            invariant
                n == self@.len(),
                forall|k: int| 0 <= k < i ==> other@.contains(#[trigger] self@[k]),
        {
            if !vec_contains(&other.vertices, self.vertices[i]) {
                return false;
            }
        }
        true
    }

    /// Is `self` a proper face of `other`: a face of it, and not equal to it?
    pub fn is_proper_face_of(&self, other: &Simplex) -> (b: bool)
        ensures
            b == (self@ != other@ && is_face(self@, other@)),
    {
        !self.same_as(other) && self.is_face_of(other)
    }

    /// The faces obtained by removing exactly one vertex: for `{v0, ..., vn}` these are
    /// the `n + 1` faces `{v0, ..., vn} \ {vi}`, in the order of `i`. A point has none.
    pub fn boundary(&self) -> (r: Vec<Simplex>)
        requires
            self.wf(),
        ensures
            views(r@) == boundary_of(self@),
            forall|i: int| 0 <= i < r.len() ==> (#[trigger] r@[i]).wf(),
    {
        let n = self.vertices.len();
        let mut faces: Vec<Simplex> = Vec::new();
        if n <= 1 {
            assert(views(faces@) =~= boundary_of(self@));
            return faces;
        }
        for i in 0..n
            invariant
                n == self@.len(),
                n > 1,
                valid_simplex(self@),
                faces@.len() == i,
                forall|k: int| 0 <= k < i ==> (#[trigger] faces@[k])@ == self@.remove(k),
                forall|k: int| 0 <= k < i ==> (#[trigger] faces@[k]).wf(),
        {
            let mut f: Vec<usize> = Vec::new();
            for j in 0..n
                invariant
                    n == self@.len(),
                    i < n,
                    f@ == (if j <= i {
                        self@.take(j as int)
                    } else {
                        self@.take(j as int).remove(i as int)
                    }),
            {
                if j != i {
                    f.push(self.vertices[j]);
                }
                assert(self@.take(j + 1) =~= self@.take(j as int).push(self@[j as int]));
                if j > i {
                    assert(self@.take(j + 1).remove(i as int) =~= self@.take(j as int).remove(
                        i as int,
                    ).push(self@[j as int]));
                } else if j == i {
                    assert(self@.take(j + 1).remove(i as int) =~= self@.take(j as int));
                }
            }
            assert(self@.take(n as int) =~= self@);
            proof {
                lemma_remove_sorted(self@, i as int);
            }
            faces.push(Simplex { vertices: f });
        }
        assert(views(faces@) =~= boundary_of(self@));
        faces
    }

    /// All faces with exactly `k + 1` vertices (dimension `k`), in lexicographic order.
    pub fn faces_of_dimension(&self, k: usize) -> (r: Vec<Simplex>)
        requires
            self.wf(),
        ensures
            views(r@) == (if k >= self@.len() {
                Seq::<Seq<usize>>::empty()
            } else {
                combos(self@, (k + 1) as nat)
            }),
            forall|i: int| 0 <= i < r.len() ==> (#[trigger] r@[i]).wf(),
    {
        if k > self.dimension() || self.vertices.len() < k + 1 {
            let r: Vec<Simplex> = Vec::new();
            assert(views(r@) =~= Seq::<Seq<usize>>::empty());
            return r;
        }
        self.combinations(k + 1)
    }

    /// All faces of every dimension, the simplex itself included: first the vertices,
    /// then the edges, and so on, each group in lexicographic order.
    pub fn all_faces(&self) -> (r: Vec<Simplex>)
        requires
            self.wf(),
        ensures
            views(r@) == all_faces_of(self@),
            forall|i: int| 0 <= i < r.len() ==> (#[trigger] r@[i]).wf(),
    {
        let n = self.vertices.len();
        let mut result: Vec<Simplex> = Vec::new();
        assert(views(result@) =~= faces_upto(self@, 0));
        for k in 0..n
            invariant
                n == self@.len(),
                valid_simplex(self@),
                views(result@) == faces_upto(self@, k as nat),
                forall|i: int| 0 <= i < result.len() ==> (#[trigger] result@[i]).wf(),
        {
            let ghost old_result = result@;
            let mut more = self.combinations(k + 1);
            let ghost m = more@;
            result.append(&mut more);
            assert(result@ =~= old_result + m);
            assert(views(result@) =~= views(old_result) + views(m));
        }
        result
    }

    /// The `k`-vertex faces in lexicographic order of positions; none for `k == 0`.
    pub fn combinations(&self, k: usize) -> (r: Vec<Simplex>)
        requires
            self.wf(),
        ensures
            views(r@) == (if k == 0 {
                Seq::<Seq<usize>>::empty()
            } else {
                combos(self@, k as nat)
            }),
            forall|i: int| 0 <= i < r.len() ==> (#[trigger] r@[i]).wf(),
    {
        if k == 0 || k > self.vertices.len() {
            let r: Vec<Simplex> = Vec::new();
            proof {
                if k > 0 {
                    lemma_combos_too_long(self@, k as nat);
                }
            }
            assert(views(r@) =~= Seq::<Seq<usize>>::empty());
            return r;
        }
        let r = combos_from(&self.vertices, 0, k);
        assert(self@.skip(0) =~= self@);
        proof {
            lemma_combos_sound(self@, k as nat);
        }
        assert forall|i: int| 0 <= i < r.len() implies (#[trigger] r@[i]).wf() by {
            assert(views(r@)[i] == r@[i]@);
        }
        r
    }
}

/// The `k`-element subsequences of `v[start..]`, in lexicographic order of positions.
fn combos_from(v: &Vec<usize>, start: usize, k: usize) -> (r: Vec<Simplex>)
    requires
        start <= v@.len(),
    ensures
        views(r@) == combos(v@.skip(start as int), k as nat),
    decreases v@.len() - start,
{
    let mut r: Vec<Simplex> = Vec::new();
    if k == 0 {
        r.push(Simplex { vertices: Vec::new() });
        assert(views(r@) =~= combos(v@.skip(start as int), 0));
        return r;
    }
    if start == v.len() {
        assert(views(r@) =~= combos(v@.skip(start as int), k as nat));
        return r;
    }
    let ghost s = v@.skip(start as int);
    assert(s.drop_first() =~= v@.skip(start + 1));
    let with = combos_from(v, start + 1, k - 1);
    let first = v[start];
    let ghost mapped = combos(s.drop_first(), (k - 1) as nat).map_values(
        |c: Seq<usize>| seq![s[0]] + c,
    );
    for i in 0..with.len()
        invariant
            s.len() > 0,
            k > 0,
            views(with@) == combos(s.drop_first(), (k - 1) as nat),
            mapped == combos(s.drop_first(), (k - 1) as nat).map_values(
                |c: Seq<usize>| seq![s[0]] + c,
            ),
            first == s[0],
            r@.len() == i,
            i <= with@.len(),
            mapped.len() == with@.len(),
            forall|j: int| 0 <= j < i ==> (#[trigger] r@[j])@ == mapped[j],
    {
        let mut c: Vec<usize> = Vec::new();
        c.push(first);
        let w = &with[i];
        let m = w.vertices.len();
        for j in 0..m
            invariant
                m == w@.len(),
                c@ == seq![first] + w@.take(j as int),
        {
            c.push(w.vertices[j]);
            assert(w@.take(j + 1) =~= w@.take(j as int).push(w@[j as int]));
            assert(c@ =~= seq![first] + w@.take(j + 1));
        }
        assert(w@.take(m as int) =~= w@);
        assert(views(with@)[i as int] == w@);
        assert(mapped[i as int] == seq![s[0]] + w@);
        r.push(Simplex { vertices: c });
    }
    let ghost part = r@;
    assert(views(part) =~= mapped);
    let mut without = combos_from(v, start + 1, k);
    let ghost rest = without@;
    r.append(&mut without);
    assert(r@ =~= part + rest);
    assert(views(r@) =~= views(part) + views(rest));
    r
}


/// The simplices in `v` are well formed and no two have the same vertex list.
pub open spec fn distinct_simplices(v: Seq<Simplex>) -> bool {
    &&& views(v).no_duplicates()
    &&& forall|i: int| 0 <= i < v.len() ==> (#[trigger] v[i]).wf()
}

/// Does `v` hold a simplex with the vertex list of `s`?
pub(crate) fn holds_simplex(v: &Vec<Simplex>, s: &Simplex) -> (b: bool)
    ensures
        b == views(v@).contains(s@),
{
    let n = v.len();
    for i in 0..n
        invariant
            n == v@.len(),
            forall|k: int| 0 <= k < i ==> views(v@)[k] != s@,
    {
        if v[i].same_as(s) {
            assert(views(v@)[i as int] == s@);
            return true;
        }
    }
    false
}

/// Append a copy of `s` to `v` unless `v` already holds a simplex with its vertices.
pub(crate) fn insert_unique(v: &mut Vec<Simplex>, s: &Simplex)
    requires
        distinct_simplices(old(v)@),
        s.wf(),
    ensures
        distinct_simplices(final(v)@),
        views(final(v)@) == if views(old(v)@).contains(s@) {
            views(old(v)@)
        } else {
            views(old(v)@).push(s@)
        },
{
    if !holds_simplex(v, s) {
        let ghost before = v@;
        v.push(s.duplicate());
        assert(views(v@) =~= views(before).push(s@));
    }
}

/// The star of `sigma`: the members of `simplices` that have `sigma` as a face, in order.
pub fn star(sigma: &Simplex, simplices: &[Simplex]) -> (r: Vec<Simplex>)
    ensures
        views(r@) == views(simplices@).filter(|t: Seq<usize>| is_face(sigma@, t)),
        (forall|i: int| 0 <= i < simplices@.len() ==> (#[trigger] simplices@[i]).wf()) ==> (
        forall|j: int| 0 <= j < r@.len() ==> (#[trigger] r@[j]).wf()),
{
    let ghost p = |t: Seq<usize>| is_face(sigma@, t);
    let n = simplices.len();
    let mut r: Vec<Simplex> = Vec::new();
    assert(views(simplices@.take(0)).filter(p) =~= views(r@));
    for i in 0..n
        invariant
            n == simplices@.len(),
            p == (|t: Seq<usize>| is_face(sigma@, t)),
            views(r@) == views(simplices@.take(i as int)).filter(p),
    {
        let ghost before = r@;
        assert(views(simplices@.take(i + 1)) =~= views(simplices@.take(i as int)).push(
            simplices@[i as int]@,
        ));
        proof {
            views(simplices@.take(i as int)).lemma_filter_push(simplices@[i as int]@, p);
        }
        if sigma.is_face_of(&simplices[i]) {
            r.push(simplices[i].duplicate());
            assert(views(r@) =~= views(before).push(simplices@[i as int]@));
        }
    }
    assert(simplices@.take(n as int) =~= simplices@);
    assert((forall|i: int| 0 <= i < simplices@.len() ==> (#[trigger] simplices@[i]).wf()) ==> (
    forall|j: int| 0 <= j < r@.len() ==> (#[trigger] r@[j]).wf())) by {
        if forall|i: int| 0 <= i < simplices@.len() ==> (#[trigger] simplices@[i]).wf() {
            assert forall|j: int| 0 <= j < r@.len() implies (#[trigger] r@[j]).wf() by {
                let vs = views(simplices@);
                assert(views(r@)[j] == r@[j]@);
                assert(vs.filter(p).contains(r@[j]@));
                vs.lemma_filter_contains_rev(p, r@[j]@);
                let k = choose|k: int| 0 <= k < vs.len() && vs[k] == r@[j]@;
                assert(simplices@[k].wf());
            }
        }
    }
    r
}

/// The closure of a collection of simplices: every face of every member, each once,
/// in no particular order.
pub fn closure(simplices: &[Simplex]) -> (r: Vec<Simplex>)
    requires
        forall|i: int| 0 <= i < simplices@.len() ==> (#[trigger] simplices@[i]).wf(),
    ensures
        distinct_simplices(r@),
        views(r@).to_set() == closure_set(views(simplices@)),
{
    let n = simplices.len();
    let mut set: Vec<Simplex> = Vec::new();
    for i in 0..n
        invariant
            n == simplices@.len(),
            forall|k: int| 0 <= k < simplices@.len() ==> (#[trigger] simplices@[k]).wf(),
            distinct_simplices(set@),
            forall|t: Seq<usize>|
                views(set@).contains(t) <==> closure_set(views(simplices@.take(i as int))).contains(
                    t,
                ),
    {
        let faces = simplices[i].all_faces();
        let m = faces.len();
        for j in 0..m
            invariant
                n == simplices@.len(),
                i < n,
                m == faces@.len(),
                forall|k: int| 0 <= k < m ==> (#[trigger] faces@[k]).wf(),
                distinct_simplices(set@),
                forall|t: Seq<usize>|
                    views(set@).contains(t) <==> (closure_set(
                        views(simplices@.take(i as int)),
                    ).contains(t) || exists|k: int| 0 <= k < j && views(faces@)[k] == t),
        {
            let ghost before = set@;
            insert_unique(&mut set, &faces[j]);
            let ghost x = faces@[j as int]@;
            assert(views(faces@)[j as int] == x);
            assert(!views(before).contains(x) ==> views(set@)[before.len() as int] == x);
            assert forall|t: Seq<usize>| views(set@).contains(t) implies views(before).contains(t)
                || t == x by {
                let q = choose|q: int| 0 <= q < views(set@).len() && views(set@)[q] == t;
                if q < before.len() {
                    assert(views(before)[q] == t);
                }
            }
            assert forall|t: Seq<usize>| views(before).contains(t) implies views(set@).contains(t) by {
                let q = choose|q: int| 0 <= q < views(before).len() && views(before)[q] == t;
                assert(views(set@)[q] == t);
            }
            assert forall|t: Seq<usize>|
                views(set@).contains(t) <==> (closure_set(
                    views(simplices@.take(i as int)),
                ).contains(t) || exists|k: int| 0 <= k < j + 1 && views(faces@)[k] == t) by {
                assert(views(before).contains(t) <==> (closure_set(
                    views(simplices@.take(i as int)),
                ).contains(t) || exists|k: int| 0 <= k < j && views(faces@)[k] == t));
                if exists|k: int| 0 <= k < j + 1 && views(faces@)[k] == t {
                    let k = choose|k: int| 0 <= k < j + 1 && views(faces@)[k] == t;
                    if k == j {
                        assert(views(set@).contains(x));
                    }
                }
            }
        }
        let ghost si = simplices@[i as int]@;
        assert forall|t: Seq<usize>|
            views(set@).contains(t) <==> closure_set(views(simplices@.take(i + 1))).contains(
                t,
            ) by {
            lemma_all_faces_of(si, t);
            let vt = views(simplices@.take(i + 1));
            let vo = views(simplices@.take(i as int));
            if exists|k: int| 0 <= k < m && views(faces@)[k] == t {
                let k = choose|k: int| 0 <= k < m && views(faces@)[k] == t;
                assert(all_faces_of(si)[k] == t);
                assert(vt[i as int] == si);
            }
            if closure_set(vo).contains(t) {
                let k = choose|k: int| 0 <= k < vo.len() && is_face(t, #[trigger] vo[k]);
                assert(vt[k] == vo[k]);
            }
            if closure_set(vt).contains(t) {
                let k = choose|k: int| 0 <= k < vt.len() && is_face(t, #[trigger] vt[k]);
                if k < i {
                    assert(vt[k] == vo[k]);
                } else {
                    assert(vt[k] == si);
                    assert(all_faces_of(si).contains(t));
                    let q = choose|q: int| 0 <= q < all_faces_of(si).len() && all_faces_of(si)[q]
                        == t;
                    assert(views(faces@)[q] == t);
                }
            }
        }
    }
    assert(simplices@.take(n as int) =~= simplices@);
    assert(views(set@).to_set() =~= closure_set(views(simplices@)));
    set
}

/// The link of `sigma` among `simplices`: the faces of simplices in the star of
/// `sigma` that share no vertex with `sigma`, each once, in no particular order.
pub fn link(sigma: &Simplex, simplices: &[Simplex]) -> (r: Vec<Simplex>)
    requires
        forall|i: int| 0 <= i < simplices@.len() ==> (#[trigger] simplices@[i]).wf(),
    ensures
        distinct_simplices(r@),
        views(r@).to_set() == closure_set(
            views(simplices@).filter(|t: Seq<usize>| is_face(sigma@, t)),
        ).filter(|t: Seq<usize>| vertex_disjoint(t, sigma@)),
{
    let st = star(sigma, simplices);
    assert forall|i: int| 0 <= i < st@.len() implies (#[trigger] st@[i]).wf() by {
        assert(simplices@.len() > 0 ==> simplices@[0].wf());
    }
    let sl = st.as_slice();
    let cl = closure(sl);
    let n = cl.len();
    let mut r: Vec<Simplex> = Vec::new();
    for j in 0..n
        invariant
            n == cl@.len(),
            distinct_simplices(cl@),
            distinct_simplices(r@),
            forall|t: Seq<usize>|
                views(r@).contains(t) <==> exists|k: int|
                    0 <= k < j && views(cl@)[k] == t && vertex_disjoint(t, sigma@),
    {
        let ghost before = r@;
        if disjoint_from(&cl[j], sigma) {
            assert(!views(before).contains(cl@[j as int]@)) by {
                if views(before).contains(cl@[j as int]@) {
                    let k = choose|k: int|
                        0 <= k < j && views(cl@)[k] == cl@[j as int]@ && vertex_disjoint(
                            cl@[j as int]@,
                            sigma@,
                        );
                    assert(views(cl@)[k] == views(cl@)[j as int]);
                }
            }
            r.push(cl[j].duplicate());
            assert(views(r@) =~= views(before).push(cl@[j as int]@));
            assert(views(r@)[before.len() as int] == cl@[j as int]@);
        }
        assert forall|t: Seq<usize>| views(r@).contains(t) implies views(before).contains(t) || (t
            == cl@[j as int]@ && vertex_disjoint(t, sigma@)) by {
            let q = choose|q: int| 0 <= q < views(r@).len() && views(r@)[q] == t;
            if q < before.len() {
                assert(views(before)[q] == t);
            }
        }
        assert forall|t: Seq<usize>| views(before).contains(t) implies views(r@).contains(t) by {
            let q = choose|q: int| 0 <= q < views(before).len() && views(before)[q] == t;
            assert(views(r@)[q] == t);
        }
        assert forall|t: Seq<usize>|
            views(r@).contains(t) <==> exists|k: int|
                0 <= k < j + 1 && views(cl@)[k] == t && vertex_disjoint(t, sigma@) by {
            assert(views(before).contains(t) <==> exists|k: int|
                0 <= k < j && views(cl@)[k] == t && vertex_disjoint(t, sigma@));
            if views(r@).contains(t) && !views(before).contains(t) {
                assert(views(cl@)[j as int] == t);
            }
            if exists|k: int| 0 <= k < j + 1 && views(cl@)[k] == t && vertex_disjoint(t, sigma@) {
                let k = choose|k: int|
                    0 <= k < j + 1 && views(cl@)[k] == t && vertex_disjoint(t, sigma@);
                if k == j {
                    assert(views(r@).contains(cl@[j as int]@));
                }
            }
        }
    }
    assert(st@ =~= sl@);
    assert(views(r@).to_set() =~= closure_set(
        views(simplices@).filter(|t: Seq<usize>| is_face(sigma@, t)),
    ).filter(|t: Seq<usize>| vertex_disjoint(t, sigma@))) by {
        assert forall|t: Seq<usize>|
            views(r@).to_set().contains(t) implies views(cl@).to_set().contains(t) && vertex_disjoint(t, sigma@) by {
            if views(r@).contains(t) {
                let k = choose|k: int| 0 <= k < n && views(cl@)[k] == t && vertex_disjoint(t, sigma@);
            }
        }
        assert forall|t: Seq<usize>|
            views(cl@).to_set().contains(t) && vertex_disjoint(t, sigma@) implies views(r@).to_set().contains(t) by {
            if views(cl@).contains(t) {
                let k = choose|k: int| 0 <= k < n && views(cl@)[k] == t;
            }
        }
    }
    r
}

/// Do the simplices `t` and `s` share no vertex?
fn disjoint_from(t: &Simplex, s: &Simplex) -> (b: bool)
    ensures
        b == vertex_disjoint(t@, s@),
{
    let n = t.vertices.len();
    for i in 0..n
        invariant
            n == t@.len(),
            forall|k: int| 0 <= k < i ==> !s@.contains(#[trigger] t@[k]),
    {
        if vec_contains(&s.vertices, t.vertices[i]) {
            return false;
        }
    }
    true
}

/// Does the vertex list `v` contain `x`?
pub(crate) fn vec_contains(v: &Vec<usize>, x: usize) -> (b: bool)
    ensures
        b == v@.contains(x),
{
    let n = v.len();
    for i in 0..n
        invariant
            n == v@.len(),
            forall|k: int| 0 <= k < i ==> v@[k] != x,
    {
        if v[i] == x {
            return true;
        }
    }
    false
}

/// Vertex order and repeats do not matter: two strictly increasing vertex lists with
/// the same vertices are equal, so `from_vertices` gives the same simplex for any two
/// inputs with the same set of vertices.
pub proof fn lemma_sorted_unique(s: Seq<usize>, t: Seq<usize>)
    requires
        strictly_sorted(s),
        strictly_sorted(t),
        s.to_set() == t.to_set(),
    ensures
        s == t,
    decreases s.len(),
{
    if s.len() == 0 {
        if t.len() > 0 {
            assert(t.to_set().contains(t[0]));
            assert(s.to_set().contains(t[0]));
        }
        assert(s =~= t);
    } else {
        assert(s.to_set().contains(s[0]));
        assert(t.contains(s[0]));
        assert(t.len() > 0);
        assert(t.to_set().contains(t[0]));
        assert(s.contains(t[0]));
        let i = choose|i: int| 0 <= i < s.len() && s[i] == t[0];
        let j = choose|j: int| 0 <= j < t.len() && t[j] == s[0];
        assert(s[0] <= s[i]);
        assert(t[0] <= t[j]);
        assert(s[0] == t[0]);
        let s2 = s.drop_first();
        let t2 = t.drop_first();
        assert forall|x: usize| s2.to_set().contains(x) <==> t2.to_set().contains(x) by {
            if s2.contains(x) {
                let k = choose|k: int| 0 <= k < s2.len() && s2[k] == x;
                assert(s[k + 1] == x);
                assert(s[0] < s[k + 1]);
                assert(s.to_set().contains(x));
                assert(t.contains(x));
                let q = choose|q: int| 0 <= q < t.len() && t[q] == x;
                assert(q != 0);
                assert(t2[q - 1] == x);
            }
            if t2.contains(x) {
                let k = choose|k: int| 0 <= k < t2.len() && t2[k] == x;
                assert(t[k + 1] == x);
                assert(t[0] < t[k + 1]);
                assert(t.to_set().contains(x));
                assert(s.contains(x));
                let q = choose|q: int| 0 <= q < s.len() && s[q] == x;
                assert(q != 0);
                assert(s2[q - 1] == x);
            }
        }
        assert(s2.to_set() =~= t2.to_set());
        lemma_sorted_unique(s2, t2);
        assert(s.len() == t.len());
        assert forall|k: int| 0 <= k < s.len() implies s[k] == t[k] by {
            if k > 0 {
                assert(s[k] == s2[k - 1]);
                assert(t[k] == t2[k - 1]);
            }
        }
        assert(s =~= t);
    }
}

/// The face relation is reflexive: every simplex is a face of itself.
pub proof fn lemma_face_reflexive(s: Seq<usize>)
    ensures
        is_face(s, s),
{
    assert forall|i: int| 0 <= i < s.len() implies s.contains(#[trigger] s[i]) by {
    }
}

/// A strictly increasing face of a strictly increasing list, with as many vertices, is
/// the list itself.
pub proof fn lemma_face_same_len(s: Seq<usize>, t: Seq<usize>)
    requires
        strictly_sorted(s),
        strictly_sorted(t),
        is_face(t, s),
        t.len() == s.len(),
    ensures
        t == s,
{
    s.unique_seq_to_set();
    t.unique_seq_to_set();
    assert(t.to_set().subset_of(s.to_set()));
    vstd::set_lib::lemma_subset_equality(t.to_set(), s.to_set());
    lemma_sorted_unique(t, s);
}

/// A strictly increasing sequence no longer holds the entry it had at a removed position.
pub proof fn lemma_removed_entry_gone(s: Seq<usize>, i: int)
    requires
        strictly_sorted(s),
        0 <= i < s.len(),
    ensures
        !s.remove(i).contains(s[i]),
{
    if s.remove(i).contains(s[i]) {
        let k = choose|k: int| 0 <= k < s.remove(i).len() && s.remove(i)[k] == s[i];
        let k2 = if k < i { k } else { k + 1 };
        assert(s[k2] == s[i]);
    }
}

/// Removing one position keeps every other value of a strictly increasing sequence.
pub proof fn lemma_removed_keeps(s: Seq<usize>, m: int, x: usize)
    requires
        strictly_sorted(s),
        0 <= m < s.len(),
        s.contains(x),
        x != s[m],
    ensures
        s.remove(m).contains(x),
{
    let k = choose|k: int| 0 <= k < s.len() && s[k] == x;
    let k2 = if k < m { k } else { k - 1 };
    assert(s.remove(m)[k2] == x);
}

/// Inserting into a sequence adds exactly the inserted value to its set of elements.
pub proof fn lemma_insert_to_set(s: Seq<usize>, pos: int, x: usize)
    requires
        0 <= pos <= s.len(),
    ensures
        s.insert(pos, x).to_set() == s.to_set().insert(x),
{
    let t = s.insert(pos, x);
    assert forall|y: usize| t.to_set().contains(y) <==> s.to_set().insert(x).contains(y) by {
        if t.to_set().contains(y) {
            let k = choose|k: int| 0 <= k < t.len() && t[k] == y;
            if k < pos {
                assert(s[k] == y);
            } else if k > pos {
                assert(s[k - 1] == y);
            }
        }
        if s.to_set().contains(y) {
            let k = choose|k: int| 0 <= k < s.len() && s[k] == y;
            if k < pos {
                assert(t[k] == y);
            } else {
                assert(t[k + 1] == y);
            }
        }
        if y == x {
            assert(t[pos] == x);
        }
    }
    assert(t.to_set() =~= s.to_set().insert(x));
}

/// Pushing onto a sequence adds exactly the pushed value to its set of elements.
pub proof fn lemma_push_to_set(s: Seq<usize>, x: usize)
    ensures
        s.push(x).to_set() == s.to_set().insert(x),
{
    assert(s.push(x) =~= s.insert(s.len() as int, x));
    lemma_insert_to_set(s, s.len() as int, x);
}

} // verus!
