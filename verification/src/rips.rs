//! Vietoris-Rips complexes from a closeness relation between points.
//!
//! Given which pairs of points lie within the distance threshold, the Vietoris-Rips
//! complex holds every set of points that are pairwise within the threshold (every
//! clique of the closeness graph), up to an optional dimension bound. Cliques are
//! found with an explicit worklist: each known clique is extended by the larger
//! vertices adjacent to all of its members.
use vstd::prelude::*;
use crate::complex::{all_valid, comp_views, face_closed, faces_of_set, SimplicialComplex};
use crate::counting::lemma_push_contains;
use crate::flag::is_flag;
use crate::graph::{adjacent, is_vertex};
use crate::simplex::{
    all_faces_of, is_face, lemma_all_faces_of, lemma_face_len, strictly_sorted, valid_simplex,
};

verus! {

/// The rows of a boolean matrix.
pub open spec fn rows(m: Seq<Vec<bool>>) -> Seq<Seq<bool>> {
    m.map_values(|r: Vec<bool>| r@)
}

/// Points `i < j` are within the threshold: row `i` has an entry `j`, and it is set.
pub open spec fn close_pair(w: Seq<Seq<bool>>, i: int, j: int) -> bool {
    0 <= i < j < w.len() && j < w[i].len() && w[i][j]
}

/// `t` lists points of `w` that are pairwise within the threshold.
pub open spec fn is_clique(w: Seq<Seq<bool>>, t: Seq<usize>) -> bool {
    &&& valid_simplex(t)
    &&& forall|a: int| 0 <= a < t.len() ==> #[trigger] t[a] < w.len()
    &&& forall|a: int, b: int|
        #![trigger t[a], t[b]]
        0 <= a < b < t.len() ==> close_pair(w, t[a] as int, t[b] as int)
}

/// The largest number of vertices a simplex may have for the given dimension bound:
/// `d + 1` for a bound `d`.
pub open spec fn size_cap(max_dimension: Option<usize>) -> int {
    match max_dimension {
        Some(d) => d + 1,
        None => usize::MAX as int,
    }
}

/// The Vietoris-Rips complex: the cliques with at most `size_cap` vertices.
pub open spec fn rips_set(w: Seq<Seq<bool>>, max_dimension: Option<usize>) -> Set<Seq<usize>> {
    Set::new(|t: Seq<usize>| is_clique(w, t) && t.len() <= size_cap(max_dimension))
}

/// The points `0, 1, ..., n - 1`.
pub open spec fn point_range(n: nat) -> Seq<usize> {
    Seq::new(n, |i: int| i as usize)
}

/// Are points `a` and `b` within the threshold of each other?
fn linked(within: &Vec<Vec<bool>>, a: usize, b: usize) -> (r: bool)
    ensures
        r == (close_pair(rows(within@), a as int, b as int) || close_pair(
            rows(within@),
            b as int,
            a as int,
        )),
{
    let n = within.len();
    let (lo, hi) = if a < b { (a, b) } else { (b, a) };
    if a == b || hi >= n {
        return false;
    }
    let row = &within[lo];
    assert(rows(within@)[lo as int] == row@);
    hi < row.len() && row[hi]
}

/// Do two vertex lists have the same entries?
fn same_list(a: &Vec<usize>, b: &Vec<usize>) -> (r: bool)
    ensures
        r == (a@ == b@),
{
    let n = a.len();
    if n != b.len() {
        return false;
    }
    for i in 0..n
        invariant
            n == a@.len(),
            n == b@.len(),
            forall|k: int| 0 <= k < i ==> a@[k] == b@[k],
    {
        if a[i] != b[i] {
            return false;
        }
    }
    assert(a@ =~= b@);
    true
}

/// Does `all` hold a list equal to `c`?
fn holds_list(all: &Vec<Vec<usize>>, c: &Vec<usize>) -> (r: bool)
    ensures
        r == comp_views(all@).contains(c@),
{
    let n = all.len();
    for i in 0..n
        invariant
            n == all@.len(),
            forall|k: int| 0 <= k < i ==> comp_views(all@)[k] != c@,
    {
        if same_list(&all[i], c) {
            assert(comp_views(all@)[i as int] == c@);
            return true;
        }
    }
    false
}

/// Every face of a clique is a clique, with no more vertices.
pub proof fn lemma_face_of_clique(w: Seq<Seq<bool>>, c: Seq<usize>, t: Seq<usize>)
    requires
        is_clique(w, c),
        valid_simplex(t),
        is_face(t, c),
    ensures
        is_clique(w, t),
        t.len() <= c.len(),
{
    lemma_face_len(c, t);
    assert forall|a: int| 0 <= a < t.len() implies #[trigger] t[a] < w.len() by {
        assert(c.contains(t[a]));
        let k = choose|k: int| 0 <= k < c.len() && c[k] == t[a];
        assert(c[k] < w.len());
    }
    assert forall|a: int, b: int| 0 <= a < b < t.len() implies #[trigger] close_pair(w, t[a] as int, t[b] as int) by {
        assert(c.contains(t[a]));
        assert(c.contains(t[b]));
        let ka = choose|k: int| 0 <= k < c.len() && c[k] == t[a];
        let kb = choose|k: int| 0 <= k < c.len() && c[k] == t[b];
        assert(t[a] < t[b]);
        if kb <= ka {
            if kb < ka {
                assert(c[kb] < c[ka]);
            }
        }
        assert(ka < kb);
        assert(close_pair(w, c[ka] as int, c[kb] as int));
    }
}

/// The invariant of the clique search: `all` holds distinct cliques with between two
/// and `cap2` vertices, including every edge; `work` holds distinct members of `all`;
/// and every member of `all` not waiting in `work` and below `cap` vertices has all of
/// its one-vertex extensions in `all`.
pub open spec fn search_ok(
    w: Seq<Seq<bool>>,
    cap: int,
    cap2: int,
    all: Seq<Seq<usize>>,
    work: Seq<Seq<usize>>,
) -> bool {
    &&& all.no_duplicates()
    &&& work.no_duplicates()
    &&& forall|q: int| 0 <= q < all.len() ==> is_clique(w, #[trigger] all[q]) && 2 <= all[q].len() <= cap2
    &&& forall|q: int| 0 <= q < work.len() ==> all.contains(#[trigger] work[q])
    &&& forall|t: Seq<usize>| is_clique(w, t) && t.len() == 2 ==> #[trigger] all.contains(t)
    &&& forall|c: Seq<usize>, x: usize|
        #![trigger all.contains(c), c.push(x)]
        all.contains(c) && !work.contains(c) && c.len() < cap && is_clique(w, c.push(x))
            ==> all.contains(c.push(x))
}

/// When the worklist is empty, every clique with between two and `cap2` vertices has
/// been found.
proof fn lemma_search_complete(
    w: Seq<Seq<bool>>,
    cap: int,
    cap2: int,
    all: Seq<Seq<usize>>,
    t: Seq<usize>,
)
    requires
        search_ok(w, cap, cap2, all, Seq::empty()),
        cap2 == if cap >= 2 { cap } else { 2 },
        is_clique(w, t),
        2 <= t.len() <= cap2,
    ensures
        all.contains(t),
    decreases t.len(),
{
    if t.len() > 2 {
        let p = t.drop_last();
        assert(is_clique(w, p)) by {
            assert forall|a: int| 0 <= a < p.len() implies #[trigger] p[a] < w.len() by {
                assert(p[a] == t[a]);
            }
            assert forall|a: int, b: int| 0 <= a < b < p.len() implies #[trigger] close_pair(w, p[a] as int, p[b] as int) by {
                assert(p[a] == t[a] && p[b] == t[b]);
            }
        }
        lemma_search_complete(w, cap, cap2, all, p);
        assert(p.push(t.last()) =~= t);
        assert(!Seq::<Seq<usize>>::empty().contains(p));
    }
}

/// Build the Vietoris-Rips complex of `n = within.len()` points, where points `i < j`
/// are within the threshold when `within[i][j]` is set: every point, and every set of
/// points that are pairwise within the threshold with at most `max_dimension + 1`
/// points (no bound when `max_dimension` is `None`).
pub fn clique_complex(within: &Vec<Vec<bool>>, max_dimension: Option<usize>) -> (k: SimplicialComplex)
    requires
        within@.len() > 0,
        max_dimension matches Some(d) ==> d < usize::MAX,
    ensures
        k.wf(),
        k@ == rips_set(rows(within@), max_dimension),
        forall|t: Seq<usize>|
            #[trigger] k@.contains(t) <==> is_clique(rows(within@), t) && (max_dimension matches Some(d)
                ==> t.len() <= d + 1),
        max_dimension is None ==> is_flag(k@),
{
    let ghost w = rows(within@);
    let n = within.len();
    let mut complex = SimplicialComplex::new();
    let mut i: usize = 0;
    while i < n
        invariant
            n == w.len(),
            i <= n,
            complex.wf(),
            forall|t: Seq<usize>|
                #[trigger] complex@.contains(t) <==> (t.len() == 1 && t[0] < i),
        decreases n - i,
    {
        let mut v: Vec<usize> = Vec::new();
        v.push(i);
        assert(v@ =~= seq![i]);
        let ghost before = complex@;
        complex.add(v);
        proof {
            assert forall|t: Seq<usize>|
                #[trigger] complex@.contains(t) <==> (t.len() == 1 && t[0] < i + 1) by {
                assert(complex@.contains(t) <==> (before.contains(t) || faces_of_set(seq![i]).contains(t)));
                assert(before.contains(t) <==> (t.len() == 1 && t[0] < i));
                if faces_of_set(seq![i]).contains(t) {
                    assert(t.len() >= 1);
                    assert(seq![i].contains(t[0]));
                    crate::simplex::lemma_face_len(seq![i], t);
                    assert(t =~= seq![i]);
                }
                if t.len() == 1 && t[0] == i {
                    assert(t =~= seq![i]);
                    assert(seq![i].contains(i));
                    assert(is_face(t, seq![i]));
                    assert(faces_of_set(seq![i]).contains(t));
                }
            }
        }
        i = i + 1;
    }
    let cap: usize = match max_dimension {
        Some(d) => d + 1,
        None => usize::MAX,
    };
    let ghost cap2: int = if cap >= 2 { cap as int } else { 2 };
    assert(cap >= 2 ==> cap2 == size_cap(max_dimension));
    let mut worklist: Vec<Vec<usize>> = Vec::new();
    let mut all: Vec<Vec<usize>> = Vec::new();
    for i in 0..n
        invariant
            n == w.len(),
            w == rows(within@),
            cap2 == if cap >= 2 { cap as int } else { 2 },
            comp_views(worklist@) == comp_views(all@),
            comp_views(all@).no_duplicates(),
            forall|q: int| 0 <= q < all@.len() ==> is_clique(w, #[trigger] comp_views(all@)[q]) && comp_views(all@)[q].len() == 2,
            forall|q: int| 0 <= q < all@.len() ==> (#[trigger] comp_views(all@)[q])[0] < i,
            forall|t: Seq<usize>| is_clique(w, t) && t.len() == 2 && t[0] < i ==> #[trigger] comp_views(all@).contains(t),
    {
        for j in i + 1..n
            invariant
                n == w.len(),
                w == rows(within@),
                i < n,
                comp_views(worklist@) == comp_views(all@),
                comp_views(all@).no_duplicates(),
                forall|q: int| 0 <= q < all@.len() ==> is_clique(w, #[trigger] comp_views(all@)[q]) && comp_views(all@)[q].len() == 2,
                forall|q: int| 0 <= q < all@.len() ==> (#[trigger] comp_views(all@)[q])[0] <= i,
                forall|q: int| 0 <= q < all@.len() && comp_views(all@)[q][0] == i ==> (#[trigger] comp_views(all@)[q])[1] < j,
                forall|t: Seq<usize>| is_clique(w, t) && t.len() == 2 && (t[0] < i || (t[0] == i && t[1] < j)) ==> #[trigger] comp_views(all@).contains(t),
        {
            if linked(within, i, j) {
                let mut e: Vec<usize> = Vec::new();
                e.push(i);
                e.push(j);
                let ghost ev = e@;
                assert(ev =~= seq![i, j]);
                let ghost before = comp_views(all@);
                let e2 = e.clone();
                assert(e2@ =~= e@);
                proof {
                    assert(!before.contains(ev)) by {
                        if before.contains(ev) {
                            let q = choose|q: int| 0 <= q < before.len() && before[q] == ev;
                            assert(before[q][0] == i);
                            assert(before[q][1] < j);
                        }
                    }
                }
                all.push(e);
                worklist.push(e2);
                proof {
                    assert(comp_views(all@) =~= before.push(ev));
                    assert(comp_views(worklist@) =~= before.push(ev));
                    assert(close_pair(w, i as int, j as int));
                    assert(ev[0] == i && ev[1] == j);
                    assert(strictly_sorted(ev));
                    assert(is_clique(w, ev));
                    assert forall|t: Seq<usize>| is_clique(w, t) && t.len() == 2 && (t[0] < i || (t[0] == i && t[1] < j + 1)) implies #[trigger] comp_views(all@).contains(t) by {
                        lemma_push_contains(before, ev, t);
                        if t[0] == i && t[1] == j {
                            assert(t =~= ev);
                        }
                    }
                }
            } else {
                proof {
                    assert forall|t: Seq<usize>| is_clique(w, t) && t.len() == 2 && (t[0] < i || (t[0] == i && t[1] < j + 1)) implies #[trigger] comp_views(all@).contains(t) by {
                        if t[0] == i && t[1] == j {
                            assert(close_pair(w, t[0] as int, t[1] as int));
                        }
                    }
                }
            }
        }
        proof {
            assert forall|t: Seq<usize>| is_clique(w, t) && t.len() == 2 && t[0] < i + 1 implies #[trigger] comp_views(all@).contains(t) by {
                if t[0] == i {
                    assert(t[1] < n);
                }
            }
        }
    }
    proof {
        assert forall|c: Seq<usize>, x: usize|
            #![trigger comp_views(all@).contains(c), c.push(x)]
            comp_views(all@).contains(c) && !comp_views(worklist@).contains(c) && c.len() < cap && is_clique(w, c.push(x))
                implies comp_views(all@).contains(c.push(x)) by {
        }
        assert forall|t: Seq<usize>| is_clique(w, t) && t.len() == 2 implies #[trigger] comp_views(all@).contains(t) by {
            assert(t[0] < n);
        }
        assert(search_ok(w, cap as int, cap2, comp_views(all@), comp_views(worklist@)));
    }
    let ghost big = point_range(n as nat);
    let ghost bound = all_faces_of(big).len();
    proof {
        lemma_clique_count(w, big, comp_views(all@));
    }
    while worklist.len() > 0
        invariant
            n == w.len(),
            w == rows(within@),
            big == point_range(n as nat),
            bound == all_faces_of(big).len(),
            cap2 == if cap >= 2 { cap as int } else { 2 },
            search_ok(w, cap as int, cap2, comp_views(all@), comp_views(worklist@)),
            comp_views(all@).len() <= bound,
        decreases 2 * (bound - comp_views(all@).len()) + worklist@.len(),
    {
        let ghost a0 = comp_views(all@);
        let ghost w0 = comp_views(worklist@);
        let clique = worklist.pop().unwrap();
        let ghost cv = clique@;
        let ghost w1 = comp_views(worklist@);
        proof {
            assert(w0 =~= w1.push(cv));
            assert(w0[w0.len() - 1] == cv);
            assert(a0.contains(cv));
            assert(!w1.contains(cv)) by {
                if w1.contains(cv) {
                    let q = choose|q: int| 0 <= q < w1.len() && w1[q] == cv;
                    assert(w0[q] == w0[w0.len() - 1]);
                }
            }
            let qa = choose|q: int| 0 <= q < a0.len() && a0[q] == cv;
            assert(is_clique(w, a0[qa]));
            assert(w1.no_duplicates()) by {
                assert forall|x: int, y: int| 0 <= x < y < w1.len() implies w1[x] != w1[y] by {
                    assert(w0[x] != w0[y]);
                }
            }
        }
        if clique.len() >= cap {
            proof {
                assert forall|q: int| 0 <= q < w1.len() implies a0.contains(#[trigger] w1[q]) by {
                    assert(w0[q] == w1[q]);
                }
                assert forall|c: Seq<usize>, x: usize|
                    #![trigger a0.contains(c), c.push(x)]
                    a0.contains(c) && !w1.contains(c) && c.len() < cap && is_clique(w, c.push(x))
                        implies a0.contains(c.push(x)) by {
                    if c != cv {
                        lemma_push_contains(w1, cv, c);
                    }
                }
                assert(search_ok(w, cap as int, cap2, comp_views(all@), comp_views(worklist@)));
            }
            continue;
        }
        let len = clique.len();
        let last = clique[len - 1];
        let mut c = last + 1;
        proof {
            assert forall|x: usize| x < c && is_clique(w, cv.push(x)) implies comp_views(all@).contains(cv.push(x)) by {
                assert(cv.push(x)[len - 1] == last);
                assert(cv.push(x)[len as int] == x);
            }
            assert forall|q: int| 0 <= q < w1.len() implies a0.contains(#[trigger] w1[q]) by {
                assert(w0[q] == w1[q]);
            }
        }
        while c < n
            invariant
                n == w.len(),
                w == rows(within@),
                big == point_range(n as nat),
                bound == all_faces_of(big).len(),
                cap2 == if cap >= 2 { cap as int } else { 2 },
                cv == clique@,
                len == cv.len(),
                len >= 2,
                len < cap,
                last == cv[len - 1],
                is_clique(w, cv),
                last < c,
                comp_views(all@).no_duplicates(),
                comp_views(worklist@).no_duplicates(),
                forall|q: int| 0 <= q < all@.len() ==> is_clique(w, #[trigger] comp_views(all@)[q]) && 2 <= comp_views(all@)[q].len() <= cap2,
                forall|q: int| 0 <= q < worklist@.len() ==> comp_views(all@).contains(#[trigger] comp_views(worklist@)[q]),
                forall|t: Seq<usize>| is_clique(w, t) && t.len() == 2 ==> #[trigger] comp_views(all@).contains(t),
                forall|c2: Seq<usize>, x: usize|
                    #![trigger comp_views(all@).contains(c2), c2.push(x)]
                    comp_views(all@).contains(c2) && !comp_views(worklist@).contains(c2) && c2 != cv && c2.len() < cap && is_clique(w, c2.push(x))
                        ==> comp_views(all@).contains(c2.push(x)),
                comp_views(all@).contains(cv),
                !comp_views(worklist@).contains(cv),
                forall|x: usize| x < c && is_clique(w, cv.push(x)) ==> #[trigger] comp_views(all@).contains(cv.push(x)),
                w0.len() == w1.len() + 1,
                comp_views(all@).len() >= a0.len(),
                comp_views(worklist@).len() == w1.len() + (comp_views(all@).len() - a0.len()),
                comp_views(all@).len() <= bound,
            decreases n - c,
        {
            let mut ok = linked(within, last, c);
            proof {
                if !linked_spec(w, last, c) {
                    let t = cv.push(c);
                    assert(t[len - 1] == last);
                    assert(t[len as int] == c);
                    if is_clique(w, t) {
                        assert(close_pair(w, t[len - 1] as int, t[len as int] as int));
                    }
                }
            }
            let mut k: usize = 0;
            while ok && k + 1 < len
                invariant
                    w == rows(within@),
                    cv == clique@,
                    len == cv.len(),
                    len >= 2,
                    last == cv[len - 1],
                    last < c,
                    is_clique(w, cv),
                    ok ==> close_pair(w, last as int, c as int),
                    ok ==> forall|q: int| 0 <= q < k ==> #[trigger] close_pair(w, cv[q] as int, c as int),
                    !ok ==> !is_clique(w, cv.push(c)),
                    k < len,
                decreases len - k,
            {
                if !linked(within, clique[k], c) {
                    ok = false;
                    proof {
                        let t = cv.push(c);
                        assert(t[k as int] == cv[k as int]);
                        assert(t[len as int] == c);
                        assert(cv[k as int] < cv[len - 1]);
                        if is_clique(w, t) {
                            assert(close_pair(w, t[k as int] as int, t[len as int] as int));
                        }
                    }
                }
                k = k + 1;
            }
            if ok {
                let mut nc = clique.clone();
                assert(nc@ =~= cv);
                nc.push(c);
                let ghost ncv = nc@;
                proof {
                    assert(ncv =~= cv.push(c));
                    assert forall|a: int, b: int| 0 <= a < b < ncv.len() implies ncv[a] < ncv[b] by {
                        if b == len {
                            if a < len - 1 {
                                assert(cv[a] < cv[len - 1]);
                            }
                        } else {
                            assert(cv[a] < cv[b]);
                        }
                    }
                    assert forall|a: int| 0 <= a < ncv.len() implies #[trigger] ncv[a] < w.len() by {
                        if a < len {
                            assert(ncv[a] == cv[a]);
                        }
                    }
                    assert forall|a: int, b: int|
                        #![trigger ncv[a], ncv[b]]
                        0 <= a < b < ncv.len() implies close_pair(w, ncv[a] as int, ncv[b] as int) by {
                        if b == len {
                            if a < len - 1 {
                                assert(close_pair(w, cv[a] as int, c as int));
                            }
                        } else {
                            assert(ncv[a] == cv[a] && ncv[b] == cv[b]);
                        }
                    }
                    assert(is_clique(w, ncv));
                }
                if !holds_list(&all, &nc) {
                    let ghost a1 = comp_views(all@);
                    let ghost wl1 = comp_views(worklist@);
                    let nc2 = nc.clone();
                    assert(nc2@ =~= nc@);
                    all.push(nc);
                    worklist.push(nc2);
                    proof {
                        assert(comp_views(all@) =~= a1.push(ncv));
                        assert(comp_views(worklist@) =~= wl1.push(ncv));
                        assert(!wl1.contains(ncv)) by {
                            if wl1.contains(ncv) {
                                let q = choose|q: int| 0 <= q < wl1.len() && wl1[q] == ncv;
                                assert(a1.contains(wl1[q]));
                            }
                        }
                        assert forall|t: Seq<usize>| a1.contains(t) implies comp_views(all@).contains(t) by {
                            lemma_push_contains(a1, ncv, t);
                        }
                        assert forall|t: Seq<usize>| is_clique(w, t) && t.len() == 2 implies #[trigger] comp_views(all@).contains(t) by {
                            assert(a1.contains(t));
                            lemma_push_contains(a1, ncv, t);
                        }
                        assert(comp_views(all@).contains(ncv)) by {
                            lemma_push_contains(a1, ncv, ncv);
                        }
                        assert forall|q: int| 0 <= q < all@.len() implies is_clique(w, #[trigger] comp_views(all@)[q]) && 2 <= comp_views(all@)[q].len() <= cap2 by {
                            if q < a1.len() {
                                assert(comp_views(all@)[q] == a1[q]);
                            }
                        }
                        assert forall|q: int| 0 <= q < worklist@.len() implies comp_views(all@).contains(#[trigger] comp_views(worklist@)[q]) by {
                            if q < wl1.len() {
                                assert(comp_views(worklist@)[q] == wl1[q]);
                                assert(a1.contains(wl1[q]));
                            }
                        }
                        assert forall|c2: Seq<usize>, x: usize|
                            #![trigger comp_views(all@).contains(c2), c2.push(x)]
                            comp_views(all@).contains(c2) && !comp_views(worklist@).contains(c2) && c2 != cv && c2.len() < cap && is_clique(w, c2.push(x))
                                implies comp_views(all@).contains(c2.push(x)) by {
                            lemma_push_contains(a1, ncv, c2);
                            lemma_push_contains(wl1, ncv, c2);
                            if c2 != ncv {
                                assert(a1.contains(c2));
                                assert(!wl1.contains(c2));
                                assert(a1.contains(c2.push(x)));
                            } else {
                                lemma_push_contains(wl1, ncv, ncv);
                            }
                        }
                        assert(!comp_views(worklist@).contains(cv)) by {
                            lemma_push_contains(wl1, ncv, cv);
                            assert(ncv.len() != cv.len());
                        }
                        assert forall|x: usize| x < c + 1 && is_clique(w, cv.push(x)) implies #[trigger] comp_views(all@).contains(cv.push(x)) by {
                            if x < c {
                                assert(a1.contains(cv.push(x)));
                            } else {
                                assert(cv.push(x) == ncv);
                            }
                        }
                        lemma_clique_count(w, big, comp_views(all@));
                    }
                } else {
                    proof {
                        assert forall|x: usize| x < c + 1 && is_clique(w, cv.push(x)) implies #[trigger] comp_views(all@).contains(cv.push(x)) by {
                            if x == c {
                                assert(cv.push(x) == ncv);
                            }
                        }
                    }
                }
            } else {
                proof {
                    assert forall|x: usize| x < c + 1 && is_clique(w, cv.push(x)) implies #[trigger] comp_views(all@).contains(cv.push(x)) by {
                    }
                }
            }
            c = c + 1;
        }
        proof {
            assert forall|x: usize| is_clique(w, cv.push(x)) implies #[trigger] comp_views(all@).contains(cv.push(x)) by {
                if x >= n {
                    assert(cv.push(x)[len as int] == x);
                }
            }
            assert forall|c2: Seq<usize>, x: usize|
                #![trigger comp_views(all@).contains(c2), c2.push(x)]
                comp_views(all@).contains(c2) && !comp_views(worklist@).contains(c2) && c2.len() < cap && is_clique(w, c2.push(x))
                    implies comp_views(all@).contains(c2.push(x)) by {
                if c2 == cv {
                    assert(comp_views(all@).contains(cv.push(x)));
                }
            }
            assert(search_ok(w, cap as int, cap2, comp_views(all@), comp_views(worklist@)));
        }
    }
    proof {
        assert(comp_views(worklist@) =~= Seq::<Seq<usize>>::empty());
    }
    let ghost cl = comp_views(all@);
    let na = if cap >= 2 { all.len() } else { 0 };
    let mut q: usize = 0;
    while q < na
        invariant
            na <= all@.len(),
            cl == comp_views(all@),
            n == w.len(),
            q <= na,
            complex.wf(),
            forall|r: int| 0 <= r < cl.len() ==> is_clique(w, #[trigger] cl[r]) && 2 <= cl[r].len() <= cap2,
            forall|t: Seq<usize>|
                #[trigger] complex@.contains(t) <==> ((t.len() == 1 && t[0] < n) || in_some_face(cl, q as int, t)),
        decreases na - q,
    {
        let cq = all[q].clone();
        assert(cq@ =~= cl[q as int]);
        assert(cq@.len() >= 2);
        let ghost before = complex@;
        complex.add(cq);
        proof {
            assert forall|t: Seq<usize>|
                #[trigger] complex@.contains(t) <==> ((t.len() == 1 && t[0] < n) || in_some_face(cl, q + 1, t)) by {
                assert(complex@.contains(t) <==> (before.contains(t) || faces_of_set(cl[q as int]).contains(t)));
                assert(before.contains(t) <==> ((t.len() == 1 && t[0] < n) || in_some_face(cl, q as int, t)));
                if in_some_face(cl, q + 1, t) {
                    let r = choose|r: int| 0 <= r < q + 1 && #[trigger] faces_of_set(cl[r]).contains(t);
                    if r < q {
                        assert(in_some_face(cl, q as int, t));
                    }
                }
                if in_some_face(cl, q as int, t) {
                    let r = choose|r: int| 0 <= r < q && #[trigger] faces_of_set(cl[r]).contains(t);
                    assert(in_some_face(cl, q + 1, t));
                }
                if faces_of_set(cl[q as int]).contains(t) {
                    assert(in_some_face(cl, q + 1, t));
                }
            }
        }
        q = q + 1;
    }
    proof {
        assert(search_ok(w, cap as int, cap2, cl, Seq::<Seq<usize>>::empty()));
        assert forall|t: Seq<usize>| complex@.contains(t) <==> rips_set(w, max_dimension).contains(t) by {
            if complex@.contains(t) {
                if in_some_face(cl, na as int, t) {
                    let r = choose|r: int| 0 <= r < na && #[trigger] faces_of_set(cl[r]).contains(t);
                    lemma_face_of_clique(w, cl[r], t);
                } else {
                    assert(t.len() == 1 && t[0] < n);
                    assert(valid_simplex(t));
                }
            }
            if rips_set(w, max_dimension).contains(t) {
                if t.len() >= 2 {
                    lemma_search_complete(w, cap as int, cap2, cl, t);
                    let r = choose|r: int| 0 <= r < cl.len() && cl[r] == t;
                    crate::simplex::lemma_face_reflexive(t);
                    assert(faces_of_set(cl[r]).contains(t));
                    assert(in_some_face(cl, na as int, t));
                } else {
                    assert(t[0] < w.len());
                }
            }
        }
        assert(complex@ =~= rips_set(w, max_dimension));
    }
    proof {
        if max_dimension is None {
            lemma_rips_is_flag(w);
        }
        lemma_rips_members(w, max_dimension);
    }
    complex
}

/// The Vietoris-Rips complex holds exactly the cliques of at most `d + 1` points under a
/// dimension bound `d`, and every clique without one.
pub proof fn lemma_rips_members(w: Seq<Seq<bool>>, max_dimension: Option<usize>)
    requires
        w.len() <= usize::MAX,
    ensures
        forall|t: Seq<usize>|
            #[trigger] rips_set(w, max_dimension).contains(t) <==> is_clique(w, t) && (
            max_dimension matches Some(d) ==> t.len() <= d + 1),
{
    assert forall|t: Seq<usize>|
        #[trigger] rips_set(w, max_dimension).contains(t) <==> is_clique(w, t) && (
        max_dimension matches Some(d) ==> t.len() <= d + 1) by {
        if is_clique(w, t) && max_dimension is None {
            lemma_sorted_at_least_index(t, t.len() - 1);
            assert(t[t.len() - 1] < w.len());
        }
    }
}

/// A dimension bound at least the number of points less one bounds nothing: the
/// bounded Vietoris-Rips complex is then the unbounded one.
pub proof fn lemma_rips_large_bound(w: Seq<Seq<bool>>, d: usize)
    requires
        w.len() <= usize::MAX,
        w.len() <= d + 1,
    ensures
        rips_set(w, Some(d)) == rips_set(w, None),
{
    lemma_rips_members(w, Some(d));
    lemma_rips_members(w, None);
    assert forall|t: Seq<usize>| #[trigger] rips_set(w, Some(d)).contains(t) <==> rips_set(w, None).contains(t) by {
        if is_clique(w, t) {
            lemma_sorted_at_least_index(t, t.len() - 1);
            assert(t[t.len() - 1] < w.len());
        }
    }
    assert(rips_set(w, Some(d)) =~= rips_set(w, None));
}

/// `t` is a face of one of the first `q` lists of `cl`.
pub open spec fn in_some_face(cl: Seq<Seq<usize>>, q: int, t: Seq<usize>) -> bool {
    exists|r: int| 0 <= r < q && #[trigger] faces_of_set(cl[r]).contains(t)
}

/// The closeness relation as a spec: points `a` and `b` are within the threshold.
pub open spec fn linked_spec(w: Seq<Seq<bool>>, a: usize, b: usize) -> bool {
    close_pair(w, a as int, b as int) || close_pair(w, b as int, a as int)
}

/// Distinct cliques of points below `n` number no more than the faces of the simplex
/// on all `n` points.
proof fn lemma_clique_count(w: Seq<Seq<bool>>, big: Seq<usize>, a: Seq<Seq<usize>>)
    requires
        w.len() <= usize::MAX,
        big == point_range(w.len()),
        a.no_duplicates(),
        forall|q: int| 0 <= q < a.len() ==> is_clique(w, #[trigger] a[q]),
    ensures
        a.len() <= all_faces_of(big).len(),
{
    assert forall|i: int, j: int| 0 <= i < j < big.len() implies big[i] < big[j] by {
        assert(big[i] == i as usize);
        assert(big[j] == j as usize);
    }
    assert(strictly_sorted(big));
    assert forall|t: Seq<usize>| #[trigger] a.contains(t) implies all_faces_of(big).contains(t) by {
        let q = choose|q: int| 0 <= q < a.len() && a[q] == t;
        assert(is_clique(w, a[q]));
        assert forall|i: int| 0 <= i < t.len() implies big.contains(#[trigger] t[i]) by {
            assert(t[i] < w.len());
            assert(big[t[i] as int] == t[i]);
        }
        lemma_all_faces_of(big, t);
    }
    crate::counting::lemma_no_dup_contained_len(a, all_faces_of(big));
}

/// The `k`-th entry of a strictly increasing list of naturals is at least `k`.
proof fn lemma_sorted_at_least_index(t: Seq<usize>, k: int)
    requires
        strictly_sorted(t),
        0 <= k < t.len(),
    ensures
        t[k] >= k,
    decreases k,
{
    if k > 0 {
        lemma_sorted_at_least_index(t, k - 1);
        assert(t[k - 1] < t[k]);
    }
}

/// Without a dimension bound, a Vietoris-Rips complex is a flag complex: every set of
/// points that are pairwise joined by edges spans a simplex.
pub proof fn lemma_rips_is_flag(w: Seq<Seq<bool>>)
    requires
        w.len() <= usize::MAX,
    ensures
        is_flag(rips_set(w, None)),
{
    let r = rips_set(w, None);
    assert forall|t: Seq<usize>|
        #![trigger r.contains(t)]
        valid_simplex(t) && (forall|i: int| 0 <= i < t.len() ==> is_vertex(r, #[trigger] t[i])) && (
        forall|i: int, j: int|
            #![trigger t[i], t[j]]
            0 <= i < j < t.len() ==> adjacent(r, t[i], t[j])) implies r.contains(t) by {
        assert forall|a: int| 0 <= a < t.len() implies #[trigger] t[a] < w.len() by {
            assert(is_vertex(r, t[a]));
            assert(is_clique(w, seq![t[a]]));
            assert(seq![t[a]][0] == t[a]);
        }
        assert forall|a: int, b: int| 0 <= a < b < t.len() implies close_pair(w, t[a] as int, t[b] as int) by {
            assert(adjacent(r, t[a], t[b]));
            assert(t[a] < t[b]);
            if r.contains(seq![t[b], t[a]]) {
                assert(valid_simplex(seq![t[b], t[a]]));
                assert(seq![t[b], t[a]][0] < seq![t[b], t[a]][1]);
            }
            assert(r.contains(seq![t[a], t[b]]));
            assert(is_clique(w, seq![t[a], t[b]]));
            assert(seq![t[a], t[b]][0] == t[a] && seq![t[a], t[b]][1] == t[b]);
        }
        lemma_sorted_at_least_index(t, t.len() - 1);
        assert(t.len() <= w.len());
    }
}

/// A larger closeness relation gives a larger Vietoris-Rips complex: when the points
/// are the same and every pair within the threshold for `w1` is also within it for
/// `w2` (as when the threshold grows), every simplex of the complex for `w1` is a
/// simplex of the complex for `w2`, under the same dimension bound.
pub proof fn lemma_rips_monotone(w1: Seq<Seq<bool>>, w2: Seq<Seq<bool>>, max_dimension: Option<usize>)
    requires
        w1.len() == w2.len(),
        forall|i: int, j: int| #[trigger] close_pair(w1, i, j) ==> close_pair(w2, i, j),
    ensures
        rips_set(w1, max_dimension).subset_of(rips_set(w2, max_dimension)),
{
    assert forall|t: Seq<usize>| #[trigger] rips_set(w1, max_dimension).contains(t) implies rips_set(
        w2,
        max_dimension,
    ).contains(t) by {
        assert forall|a: int| 0 <= a < t.len() implies #[trigger] t[a] < w2.len() by {
            assert(t[a] < w1.len());
        }
        assert forall|a: int, b: int| 0 <= a < b < t.len() implies close_pair(w2, t[a] as int, t[b] as int) by {
            assert(close_pair(w1, t[a] as int, t[b] as int));
        }
        assert(is_clique(w2, t));
    }
}

} // verus!
