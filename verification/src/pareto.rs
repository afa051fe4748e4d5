//! Pareto-front arm selection for multi-objective problems: non-dominated
//! sorting of the candidates and the filling of an arm budget front by front.
//!
//! Objective values arrive as integers that order the candidates as the
//! model's predicted objectives do.

use rand::rngs::StdRng;
use vstd::prelude::*;

use crate::acquisition::{shuffle_indices, AcquisitionError};
use crate::text::{decimal, push_decimal};

verus! {

/// Objective values of the candidates: one row per candidate, `cols`
/// objectives per row, larger being better.
pub struct Objectives {
    pub cols: usize,
    pub rows: Vec<Vec<i64>>,
}

impl Objectives {
    /// Every row holds `cols` values.
    pub open spec fn wf(&self) -> bool {
        forall|i: int| 0 <= i < self.rows@.len() ==> (#[trigger] self.rows@[i])@.len() == self.cols
    }

    /// Number of candidates.
    pub open spec fn n(&self) -> nat {
        self.rows@.len()
    }

    /// Objective `k` of candidate `i`.
    pub open spec fn at(&self, i: usize, k: int) -> i64 {
        self.rows@[i as int]@[k]
    }
}

/// Candidate `i` dominates candidate `j`: at least as good in every objective
/// and better in one.
pub open spec fn dominates(m: Objectives, i: usize, j: usize) -> bool {
    &&& forall|k: int| 0 <= k < m.cols ==> #[trigger] m.at(i, k) >= m.at(j, k)
    &&& exists|k: int| 0 <= k < m.cols && #[trigger] m.at(i, k) > m.at(j, k)
}

/// No candidate of `rem` dominates `x`.
pub open spec fn undominated(m: Objectives, rem: Set<usize>, x: usize) -> bool {
    !exists|j: usize| #[trigger] rem.contains(j) && dominates(m, j, x)
}

/// The candidates of `rem` that no candidate of `rem` dominates.
pub open spec fn front_of(m: Objectives, rem: Set<usize>) -> Set<usize> {
    rem.filter(|x: usize| undominated(m, rem, x))
}

/// The candidates left once the first `t` fronts have been taken away.
pub open spec fn left_after(m: Objectives, t: nat) -> Set<usize>
    decreases t,
{
    if t == 0 {
        Set::new(|i: usize| i < m.n())
    } else {
        let r = left_after(m, (t - 1) as nat);
        r.difference(front_of(m, r))
    }
}

/// Front number `t` of the non-dominated sorting.
pub open spec fn front(m: Objectives, t: nat) -> Set<usize> {
    front_of(m, left_after(m, t))
}

/// `fronts` is the non-dominated sorting of the candidates: front `t` holds,
/// once each, the candidates that nothing left after the first `t` fronts
/// dominates, and no candidate is left after the last front.
pub open spec fn is_front_sort(m: Objectives, fronts: Seq<Seq<usize>>) -> bool {
    &&& forall|x: usize| !#[trigger] left_after(m, fronts.len()).contains(x)
    &&& is_front_sort_prefix(m, fronts)
}

/// With two objectives: `a` comes before `b` by the first objective
/// descending, then the second descending, then the index ascending.
pub open spec fn sweep_before(m: Objectives, a: usize, b: usize) -> bool {
    ||| m.at(a, 0) > m.at(b, 0)
    ||| m.at(a, 0) == m.at(b, 0) && m.at(a, 1) > m.at(b, 1)
    ||| m.at(a, 0) == m.at(b, 0) && m.at(a, 1) == m.at(b, 1) && a < b
}

/// Each front is listed in the order of `sweep_before`.
pub open spec fn fronts_in_sweep_order(m: Objectives, fronts: Seq<Seq<usize>>) -> bool {
    forall|t: int, p: int, q: int|
        0 <= t < fronts.len() && 0 <= p < q < fronts[t].len() ==> sweep_before(
            m,
            #[trigger] fronts[t][p],
            #[trigger] fronts[t][q],
        )
}

/// The contents of each front.
pub open spec fn views(fronts: Seq<Vec<usize>>) -> Seq<Seq<usize>> {
    Seq::new(fronts.len(), |t: int| fronts[t]@)
}

/// Every front listed in `fronts` is the front of that number.
pub open spec fn is_front_sort_prefix(m: Objectives, fronts: Seq<Seq<usize>>) -> bool {
    forall|t: int|
        0 <= t < fronts.len() ==> {
            &&& (#[trigger] fronts[t]).no_duplicates()
            &&& fronts[t].len() > 0
            &&& forall|x: usize| fronts[t].contains(x) <==> #[trigger] front(m, t as nat).contains(x)
        }
}

/// `v` lists each candidate of `s` once.
pub open spec fn lists(v: Seq<usize>, s: Set<usize>) -> bool {
    &&& v.no_duplicates()
    &&& forall|x: usize| v.contains(x) <==> #[trigger] s.contains(x)
}

/// Objective `k` of candidate `i`.
fn objective(m: &Objectives, i: usize, k: usize) -> (r: i64)
    requires
        m.wf(),
        i < m.n(),
        k < m.cols,
    ensures
        r == m.at(i, k as int),
{
    m.rows[i][k]
}

/// `sweep_before`, computed.
fn sweeps_before(m: &Objectives, a: usize, b: usize) -> (r: bool)
    requires
        m.wf(),
        m.cols == 2,
        a < m.n(),
        b < m.n(),
    ensures
        r == sweep_before(*m, a, b),
{
    let a0 = objective(m, a, 0);
    let b0 = objective(m, b, 0);
    if a0 != b0 {
        return a0 > b0;
    }
    let a1 = objective(m, a, 1);
    let b1 = objective(m, b, 1);
    if a1 != b1 {
        return a1 > b1;
    }
    a < b
}

/// `v` sorted by `sweep_before`.
fn sweep_sorted(m: &Objectives, v: &Vec<usize>) -> (r: Vec<usize>)
    requires
        m.wf(),
        m.cols == 2,
        v@.no_duplicates(),
        forall|p: int| 0 <= p < v@.len() ==> #[trigger] v@[p] < m.n(),
    ensures
        r@.len() == v@.len(),
        r@.no_duplicates(),
        forall|p: int| 0 <= p < r@.len() ==> #[trigger] r@[p] < m.n(),
        forall|x: usize| r@.contains(x) <==> v@.contains(x),
        forall|p: int, q: int| 0 <= p < q < r@.len() ==> sweep_before(*m, #[trigger] r@[p], #[trigger] r@[q]),
{
    let mut out: Vec<usize> = Vec::with_capacity(v.len());
    let mut i: usize = 0;
    while i < v.len()
        invariant
            m.wf(),
            m.cols == 2,
            v@.no_duplicates(),
            forall|p: int| 0 <= p < v@.len() ==> #[trigger] v@[p] < m.n(),
            i <= v@.len(),
            out@.len() == i,
            out@.no_duplicates(),
            forall|p: int| 0 <= p < out@.len() ==> #[trigger] out@[p] < m.n(),
            forall|x: usize| out@.contains(x) <==> v@.subrange(0, i as int).contains(x),
            forall|p: int, q: int|
                0 <= p < q < out@.len() ==> sweep_before(*m, #[trigger] out@[p], #[trigger] out@[q]),
        decreases v@.len() - i,
    {
        let x = v[i];
        let mut pos: usize = 0;
        while pos < out.len() && !sweeps_before(m, x, out[pos])
            invariant
                m.wf(),
                m.cols == 2,
                x < m.n(),
                pos <= out@.len(),
                forall|p: int| 0 <= p < out@.len() ==> #[trigger] out@[p] < m.n(),
                forall|q: int| 0 <= q < pos ==> !sweep_before(*m, x, #[trigger] out@[q]),
            decreases out@.len() - pos,
        {
            pos = pos + 1;
        }
        let ghost before = out@;
        assert(!before.contains(x)) by {
            if before.contains(x) {
                let w = choose|w: int| 0 <= w < i && v@[w] == x;
                assert(v@.subrange(0, i as int).contains(x));
                assert(v@[w] == v@[i as int]);
            }
        }
        proof {
            assert forall|q: int| pos <= q < before.len() implies sweep_before(*m, x, #[trigger] before[q]) by {
                if q > pos {
                    assert(sweep_before(*m, before[pos as int], before[q]));
                }
            }
        }
        out.insert(pos, x);
        proof {
            assert(out@ == before.insert(pos as int, x));
            let pre = v@.subrange(0, i as int);
            let pre1 = v@.subrange(0, i + 1);
            assert(pre1 =~= pre.push(x));
            assert forall|y: usize| out@.contains(y) <==> pre1.contains(y) by {
                if out@.contains(y) {
                    let w = choose|w: int| 0 <= w < out@.len() && out@[w] == y;
                    if y != x {
                        if w < pos {
                            assert(before[w] == y);
                        } else {
                            assert(before[w - 1] == y);
                        }
                        assert(before.contains(y));
                        assert(pre.contains(y));
                        let u = choose|u: int| 0 <= u < pre.len() && pre[u] == y;
                        assert(pre1[u] == y);
                    } else {
                        assert(pre1[i as int] == y);
                    }
                }
                if pre1.contains(y) {
                    let u = choose|u: int| 0 <= u < pre1.len() && pre1[u] == y;
                    if u < i {
                        assert(pre[u] == y);
                        assert(before.contains(y));
                        let w = choose|w: int| 0 <= w < before.len() && before[w] == y;
                        if w < pos {
                            assert(out@[w] == y);
                        } else {
                            assert(out@[w + 1] == y);
                        }
                    } else {
                        assert(out@[pos as int] == y);
                    }
                }
            }
            assert forall|p: int| 0 <= p < out@.len() implies #[trigger] out@[p] < m.n() by {
                if p < pos {
                    assert(out@[p] == before[p]);
                } else if p > pos {
                    assert(out@[p] == before[p - 1]);
                }
            }
            assert forall|p: int, q: int| 0 <= p < q < out@.len() implies out@[p] != out@[q] by {
                if p < pos && q == pos {
                    assert(before.contains(before[p]));
                } else if p == pos && q > pos {
                    assert(before.contains(before[q - 1]));
                } else if q < pos {
                } else if p > pos {
                    assert(before[p - 1] != before[q - 1]);
                } else {
                    assert(before[p] != before[q - 1]);
                }
            }
            assert forall|p: int, q: int| 0 <= p < q < out@.len() implies sweep_before(
                *m,
                #[trigger] out@[p],
                #[trigger] out@[q],
            ) by {
                if q < pos {
                    assert(sweep_before(*m, before[p], before[q]));
                } else if q == pos {
                    assert(!sweep_before(*m, x, before[p]));
                    assert(before[p] != x);
                } else if p < pos {
                    assert(sweep_before(*m, before[p], before[q - 1]));
                } else if p == pos {
                } else {
                    assert(sweep_before(*m, before[p - 1], before[q - 1]));
                }
            }
        }
        i = i + 1;
    }
    assert(v@.subrange(0, v@.len() as int) =~= v@);
    out
}

/// With two objectives, domination compares the two values.
proof fn lemma_dominates_pair(m: Objectives)
    requires
        m.cols == 2,
    ensures
        forall|i: usize, j: usize|
            #[trigger] dominates(m, i, j) <==> (m.at(i, 0) >= m.at(j, 0) && m.at(i, 1) >= m.at(j, 1) && (m.at(
                i,
                0,
            ) > m.at(j, 0) || m.at(i, 1) > m.at(j, 1))),
{
    assert forall|i: usize, j: usize|
        #[trigger] dominates(m, i, j) <==> (m.at(i, 0) >= m.at(j, 0) && m.at(i, 1) >= m.at(j, 1) && (m.at(i, 0)
            > m.at(j, 0) || m.at(i, 1) > m.at(j, 1))) by {
        if m.at(i, 0) >= m.at(j, 0) && m.at(i, 1) >= m.at(j, 1) {
            assert forall|k: int| 0 <= k < m.cols implies #[trigger] m.at(i, k) >= m.at(j, k) by {
                if k == 0 {
                } else {
                    assert(k == 1);
                }
            }
            if m.at(i, 0) > m.at(j, 0) {
                assert(0 <= 0 < m.cols && m.at(i, 0) > m.at(j, 0));
            }
            if m.at(i, 1) > m.at(j, 1) {
                assert(0 <= 1 < m.cols && m.at(i, 1) > m.at(j, 1));
            }
        }
        if dominates(m, i, j) {
            assert(m.at(i, 0) >= m.at(j, 0));
            assert(m.at(i, 1) >= m.at(j, 1));
            let k = choose|k: int| 0 <= k < m.cols && #[trigger] m.at(i, k) > m.at(j, k);
            assert(k == 0 || k == 1);
        }
    }
}

/// The first front of the candidates `rem`, which `r` lists in sweep order.
fn sweep_front(m: &Objectives, r: &Vec<usize>, Ghost(rem): Ghost<Set<usize>>) -> (front: Vec<usize>)
    requires
        m.wf(),
        m.cols == 2,
        r@.len() > 0,
        lists(r@, rem),
        forall|p: int| 0 <= p < r@.len() ==> #[trigger] r@[p] < m.n(),
        forall|p: int, q: int| 0 <= p < q < r@.len() ==> sweep_before(*m, #[trigger] r@[p], #[trigger] r@[q]),
    ensures
        front@.len() > 0,
        lists(front@, front_of(*m, rem)),
        forall|p: int| 0 <= p < front@.len() ==> #[trigger] front@[p] < m.n(),
        forall|p: int, q: int|
            0 <= p < q < front@.len() ==> sweep_before(*m, #[trigger] front@[p], #[trigger] front@[q]),
{
    proof {
        lemma_dominates_pair(*m);
    }
    let mut front: Vec<usize> = Vec::new();
    let mut have_best = false;
    let mut best1: i64 = 0;
    let mut last0: i64 = 0;
    let ghost mut best_at: int = 0;
    let mut p: usize = 0;
    while p < r.len()
        invariant
            m.wf(),
            m.cols == 2,
            lists(r@, rem),
            forall|a: int| 0 <= a < r@.len() ==> #[trigger] r@[a] < m.n(),
            forall|a: int, b: int| 0 <= a < b < r@.len() ==> sweep_before(*m, #[trigger] r@[a], #[trigger] r@[b]),
            forall|i: usize, j: usize|
                #[trigger] dominates(*m, i, j) <==> (m.at(i, 0) >= m.at(j, 0) && m.at(i, 1) >= m.at(j, 1) && (
                m.at(i, 0) > m.at(j, 0) || m.at(i, 1) > m.at(j, 1))),
            p <= r@.len(),
            have_best <==> p > 0,
            front@.no_duplicates(),
            forall|a: int| 0 <= a < front@.len() ==> #[trigger] front@[a] < m.n(),
            forall|y: usize| #[trigger] front@.contains(y) ==> r@.subrange(0, p as int).contains(y),
            forall|y: usize| #[trigger] front@.contains(y) ==> undominated(*m, rem, y),
            forall|y: usize|
                #[trigger] undominated(*m, rem, y) ==> (r@.subrange(0, p as int).contains(y) ==> front@.contains(y)),
            forall|a: int, b: int|
                0 <= a < b < front@.len() ==> sweep_before(*m, #[trigger] front@[a], #[trigger] front@[b]),
            forall|a: int| 0 <= a < front@.len() ==> exists|q: int| 0 <= q < p && r@[q] == #[trigger] front@[a],
            have_best ==> {
                &&& 0 <= best_at < p
                &&& m.at(r@[best_at], 1) == best1
                &&& forall|q: int| 0 <= q < p ==> m.at(#[trigger] r@[q], 1) <= best1
                &&& front@.len() > 0
                &&& m.at(front@.last(), 0) == last0
                &&& m.at(front@.last(), 1) == best1
            },
        decreases r@.len() - p,
    {
        let x = r[p];
        let o0 = objective(m, x, 0);
        let o1 = objective(m, x, 1);
        let ghost old_front = front@;
        let ghost prefix = r@.subrange(0, p as int);
        // A candidate of `rem` that dominates `x` comes before `x` in `r`.
        assert forall|j: usize| rem.contains(j) && dominates(*m, j, x) implies #[trigger] prefix.contains(j) by {
            let w = choose|w: int| 0 <= w < r@.len() && r@[w] == j;
            if w > p {
                assert(sweep_before(*m, r@[p as int], r@[w]));
            }
            assert(w != p);
            assert(prefix[w] == j);
        }
        let take = !have_best || o1 > best1 || (o1 == best1 && o0 == last0);
        assert(take <==> undominated(*m, rem, x)) by {
            if !have_best {
                assert forall|j: usize| rem.contains(j) implies !dominates(*m, j, x) by {
                    if dominates(*m, j, x) {
                        assert(prefix.contains(j));
                    }
                }
            } else if o1 > best1 {
                assert forall|j: usize| rem.contains(j) implies !dominates(*m, j, x) by {
                    if dominates(*m, j, x) {
                        let w = choose|w: int| 0 <= w < prefix.len() && prefix[w] == j;
                        assert(m.at(r@[w], 1) <= best1);
                    }
                }
            } else if o1 < best1 {
                let y = r@[best_at];
                assert(sweep_before(*m, y, x));
                assert(rem.contains(y));
                assert(dominates(*m, y, x));
            } else {
                let l = old_front.last();
                let lq = choose|q: int| 0 <= q < p && r@[q] == l;
                assert(old_front.contains(l));
                assert(undominated(*m, rem, l));
                assert(sweep_before(*m, l, x));
                assert(rem.contains(l));
                if o0 == last0 {
                    assert forall|j: usize| rem.contains(j) implies !dominates(*m, j, x) by {
                        if dominates(*m, j, x) {
                            let w = choose|w: int| 0 <= w < prefix.len() && prefix[w] == j;
                            assert(m.at(r@[w], 1) <= best1);
                            assert(dominates(*m, j, l));
                        }
                    }
                } else {
                    assert(dominates(*m, l, x));
                }
            }
        }
        if take {
            front.push(x);
            if !have_best || o1 > best1 {
                proof {
                    best_at = p as int;
                }
                have_best = true;
                best1 = o1;
                last0 = o0;
            }
        }
        proof {
            let prefix1 = r@.subrange(0, p + 1);
            assert(prefix1 =~= prefix.push(x));
            assert(!prefix.contains(x)) by {
                if prefix.contains(x) {
                    let w = choose|w: int| 0 <= w < prefix.len() && prefix[w] == x;
                    assert(r@[w] == r@[p as int]);
                }
            }
            assert(prefix1[p as int] == x);
            assert(prefix1.contains(x));
            assert(!old_front.contains(x));
            assert forall|y: usize| #[trigger] front@.contains(y) implies prefix1.contains(y) && undominated(*m, rem, y) by {
                if y == x {
                } else {
                    let w = choose|w: int| 0 <= w < front@.len() && front@[w] == y;
                    assert(old_front[w] == y);
                    assert(old_front.contains(y));
                    let u = choose|u: int| 0 <= u < prefix.len() && prefix[u] == y;
                    assert(prefix1[u] == y);
                }
            }
            assert forall|y: usize| #[trigger] undominated(*m, rem, y) implies (prefix1.contains(y) ==> front@.contains(y)) by {
                if prefix1.contains(y) {
                    if y == x {
                        assert(front@[front@.len() - 1] == x);
                    } else {
                        let u = choose|u: int| 0 <= u < prefix1.len() && prefix1[u] == y;
                        assert(prefix[u] == y);
                        assert(old_front.contains(y));
                        let w = choose|w: int| 0 <= w < old_front.len() && old_front[w] == y;
                        assert(front@[w] == y);
                    }
                }
            }
            assert(r@.subrange(0, p + 1) == prefix1);
            if take {
                assert forall|a: int, b: int| 0 <= a < b < front@.len() implies sweep_before(
                    *m,
                    #[trigger] front@[a],
                    #[trigger] front@[b],
                ) by {
                    if b == front@.len() - 1 {
                        let q = choose|q: int| 0 <= q < p && r@[q] == old_front[a];
                        assert(sweep_before(*m, r@[q], r@[p as int]));
                    } else {
                        assert(sweep_before(*m, old_front[a], old_front[b]));
                    }
                }
                assert forall|a: int| 0 <= a < front@.len() implies exists|q: int|
                    0 <= q < p + 1 && r@[q] == #[trigger] front@[a] by {
                    if a == front@.len() - 1 {
                        assert(r@[p as int] == front@[a]);
                    } else {
                        let q = choose|q: int| 0 <= q < p && r@[q] == old_front[a];
                        assert(r@[q] == front@[a]);
                    }
                }
                assert forall|a: int, b: int| 0 <= a < b < front@.len() implies front@[a] != front@[b] by {
                    if b == front@.len() - 1 {
                        let q = choose|q: int| 0 <= q < p && r@[q] == old_front[a];
                        assert(prefix[q] == old_front[a]);
                    }
                }
            }
        }
        p = p + 1;
    }
    proof {
        assert(r@.subrange(0, r@.len() as int) =~= r@);
        assert forall|x: usize| front@.contains(x) <==> #[trigger] front_of(*m, rem).contains(x) by {
            if front_of(*m, rem).contains(x) {
                assert(rem.contains(x));
                assert(undominated(*m, rem, x));
            }
            if front@.contains(x) {
                assert(undominated(*m, rem, x));
                assert(r@.contains(x));
            }
        }
    }
    front
}

/// Non-dominated sorting with two objectives: each front is peeled off the
/// candidates left by a sweep in `sweep_before` order.
fn non_domin_sort_2d(m: &Objectives) -> (fronts: Vec<Vec<usize>>)
    requires
        m.wf(),
        m.cols == 2,
    ensures
        is_front_sort(*m, views(fronts@)),
        fronts_in_sweep_order(*m, views(fronts@)),
{
    let n = m.rows.len();
    let mut fronts: Vec<Vec<usize>> = Vec::new();
    let mut remaining: Vec<usize> = Vec::with_capacity(n);
    let mut i: usize = 0;
    while i < n
        invariant
            n == m.n(),
            i <= n,
            remaining@.len() == i,
            forall|a: int| 0 <= a < i ==> #[trigger] remaining@[a] == a,
        decreases n - i,
    {
        remaining.push(i);
        i = i + 1;
    }
    proof {
        assert forall|x: usize| remaining@.contains(x) <==> #[trigger] left_after(*m, 0).contains(x) by {
            if x < n {
                assert(remaining@[x as int] == x);
            }
        }
        assert forall|a: int, b: int| 0 <= a < b < remaining@.len() implies remaining@[a] != remaining@[b] by {
        }
    }
    while remaining.len() > 0
        invariant
            m.wf(),
            m.cols == 2,
            n == m.n(),
            lists(remaining@, left_after(*m, fronts@.len() as nat)),
            forall|a: int| 0 <= a < remaining@.len() ==> #[trigger] remaining@[a] < n,
            is_front_sort_prefix(*m, views(fronts@)),
            fronts_in_sweep_order(*m, views(fronts@)),
        decreases remaining@.len(),
    {
        let ghost t = fronts@.len() as nat;
        let ghost rem = left_after(*m, t);
        let sorted = sweep_sorted(m, &remaining);
        let front = sweep_front(m, &sorted, Ghost(rem));
        let mut in_front: Vec<bool> = Vec::with_capacity(n);
        let mut k: usize = 0;
        while k < n
            invariant
                k <= n,
                in_front@.len() == k,
                forall|a: int| 0 <= a < k ==> !#[trigger] in_front@[a],
            decreases n - k,
        {
            in_front.push(false);
            k = k + 1;
        }
        let mut a: usize = 0;
        while a < front.len()
            invariant
                in_front@.len() == n,
                a <= front@.len(),
                forall|b: int| 0 <= b < front@.len() ==> #[trigger] front@[b] < n,
                forall|x: usize| x < n ==> (in_front@[x as int] <==> #[trigger] front@.subrange(0, a as int).contains(x)),
            decreases front@.len() - a,
        {
            let idx = front[a];
            let ghost pre = front@.subrange(0, a as int);
            let ghost old_in = in_front@;
            in_front.set(idx, true);
            proof {
                let pre1 = front@.subrange(0, a + 1);
                assert(pre1 =~= pre.push(idx));
                assert forall|x: usize| x < n implies (in_front@[x as int] <==> #[trigger] pre1.contains(x)) by {
                    if x != idx {
                        assert(in_front@[x as int] == old_in[x as int]);
                        assert(old_in[x as int] <==> pre.contains(x));
                        if pre1.contains(x) {
                            let w = choose|w: int| 0 <= w < pre1.len() && pre1[w] == x;
                            assert(pre[w] == x);
                        }
                        if pre.contains(x) {
                            let w = choose|w: int| 0 <= w < pre.len() && pre[w] == x;
                            assert(pre1[w] == x);
                        }
                    } else {
                        assert(pre1[a as int] == x);
                    }
                }
            }
            a = a + 1;
        }
        assert(front@.subrange(0, front@.len() as int) =~= front@);
        let mut next: Vec<usize> = Vec::with_capacity(sorted.len());
        let mut q: usize = 0;
        while q < sorted.len()
            invariant
                in_front@.len() == n,
                forall|b: int| 0 <= b < sorted@.len() ==> #[trigger] sorted@[b] < n,
                sorted@.no_duplicates(),
                q <= sorted@.len(),
                next@.no_duplicates(),
                next@.len() <= q,
                next@.len() < q || forall|b: int| 0 <= b < q ==> !in_front@[#[trigger] sorted@[b] as int],
                forall|x: usize|
                    next@.contains(x) <==> (sorted@.subrange(0, q as int).contains(x) && !in_front@[x as int]),
                forall|b: int| 0 <= b < next@.len() ==> #[trigger] next@[b] < n,
            decreases sorted@.len() - q,
        {
            let x = sorted[q];
            let ghost pre = sorted@.subrange(0, q as int);
            let ghost old_next = next@;
            if !in_front[x] {
                next.push(x);
            }
            proof {
                let pre1 = sorted@.subrange(0, q + 1);
                assert(pre1 =~= pre.push(x));
                assert(!pre.contains(x)) by {
                    if pre.contains(x) {
                        let w = choose|w: int| 0 <= w < pre.len() && pre[w] == x;
                        assert(sorted@[w] == sorted@[q as int]);
                    }
                }
                assert(pre1[q as int] == x);
                assert(!old_next.contains(x)) by {
                    if old_next.contains(x) {
                        assert(pre.contains(x));
                    }
                }
                assert forall|y: usize| next@.contains(y) <==> (pre1.contains(y) && !in_front@[y as int]) by {
                    if y == x {
                        if !in_front@[x as int] {
                            assert(next@[next@.len() - 1] == x);
                        } else {
                            assert(next@ == old_next);
                        }
                    } else {
                        assert(next@.contains(y) <==> old_next.contains(y)) by {
                            if !in_front@[x as int] {
                                if next@.contains(y) {
                                    let w = choose|w: int| 0 <= w < next@.len() && next@[w] == y;
                                    assert(old_next[w] == y);
                                }
                                if old_next.contains(y) {
                                    let w = choose|w: int| 0 <= w < old_next.len() && old_next[w] == y;
                                    assert(next@[w] == y);
                                }
                            }
                        }
                        assert(pre1.contains(y) <==> pre.contains(y)) by {
                            if pre1.contains(y) {
                                let w = choose|w: int| 0 <= w < pre1.len() && pre1[w] == y;
                                assert(pre[w] == y);
                            }
                            if pre.contains(y) {
                                let w = choose|w: int| 0 <= w < pre.len() && pre[w] == y;
                                assert(pre1[w] == y);
                            }
                        }
                    }
                }
                if !in_front@[x as int] {
                    assert forall|b: int, c: int| 0 <= b < c < next@.len() implies next@[b] != next@[c] by {
                        if c == next@.len() - 1 {
                            assert(old_next.contains(old_next[b]));
                        }
                    }
                }
            }
            q = q + 1;
        }
        proof {
            assert(sorted@.subrange(0, sorted@.len() as int) =~= sorted@);
            let f0 = front@[0];
            assert(front_of(*m, rem).contains(f0));
            assert(sorted@.contains(f0));
            assert(in_front@[f0 as int]) by {
                assert(front@.contains(f0));
            }
            let w = choose|w: int| 0 <= w < sorted@.len() && sorted@[w] == f0;
            assert(next@.len() < sorted@.len());
            assert forall|x: usize| next@.contains(x) <==> #[trigger] left_after(*m, t + 1).contains(x) by {
                assert(left_after(*m, t + 1) == rem.difference(front_of(*m, rem)));
                if next@.contains(x) {
                    assert(sorted@.contains(x));
                    assert(!front@.contains(x));
                }
                if left_after(*m, t + 1).contains(x) {
                    assert(rem.contains(x));
                    assert(sorted@.contains(x));
                    assert(!front@.contains(x));
                    let w = choose|w: int| 0 <= w < sorted@.len() && sorted@[w] == x;
                    assert(x < n);
                }
            }
        }
        let ghost old_fronts = fronts@;
        fronts.push(front);
        proof {
            assert(views(fronts@) =~= views(old_fronts).push(front@));
        }
        remaining = next;
    }
    fronts
}

/// Number of members of `s` below `upto`.
pub open spec fn count_below(s: Set<usize>, upto: nat) -> nat
    decreases upto,
{
    if upto == 0 {
        0
    } else {
        count_below(s, (upto - 1) as nat) + if s.contains((upto - 1) as usize) {
            1nat
        } else {
            0nat
        }
    }
}

/// The candidates of `alive` that dominate `x`.
pub open spec fn dominators(m: Objectives, alive: Set<usize>, x: usize) -> Set<usize> {
    alive.filter(|y: usize| dominates(m, y, x))
}

/// Taking `i` out of `s` lowers the count by one exactly when `i` was counted.
proof fn lemma_count_remove(s: Set<usize>, i: usize, upto: nat)
    requires
        upto <= usize::MAX + 1,
    ensures
        count_below(s.remove(i), upto) + (if i < upto && s.contains(i) {
            1nat
        } else {
            0nat
        }) == count_below(s, upto),
    decreases upto,
{
    if upto > 0 {
        lemma_count_remove(s, i, (upto - 1) as nat);
    }
}

/// The count is zero exactly when no member lies below `upto`.
proof fn lemma_count_zero(s: Set<usize>, upto: nat)
    requires
        upto <= usize::MAX + 1,
    ensures
        count_below(s, upto) == 0 <==> forall|x: usize| x < upto ==> !#[trigger] s.contains(x),
    decreases upto,
{
    if upto > 0 {
        lemma_count_zero(s, (upto - 1) as nat);
        if count_below(s, upto) == 0 {
            assert forall|x: usize| x < upto implies !#[trigger] s.contains(x) by {
                if x < upto - 1 {
                } else {
                    assert(x == (upto - 1) as usize);
                }
            }
        }
    }
}

/// A subset counts no more, and strictly less when it misses a member below
/// `upto`.
proof fn lemma_count_subset(a: Set<usize>, b: Set<usize>, upto: nat, w: usize)
    requires
        upto <= usize::MAX + 1,
        a.subset_of(b),
    ensures
        count_below(a, upto) <= count_below(b, upto),
        w < upto && b.contains(w) && !a.contains(w) ==> count_below(a, upto) < count_below(b, upto),
    decreases upto,
{
    if upto > 0 {
        lemma_count_subset(a, b, (upto - 1) as nat, w);
    }
}

/// Sum of the first `upto` objectives of candidate `i`.
pub open spec fn total(m: Objectives, i: usize, upto: int) -> int
    decreases upto,
{
    if upto <= 0 {
        0
    } else {
        total(m, i, upto - 1) + m.at(i, upto - 1)
    }
}

/// Summing objectives preserves the comparison of two candidates.
proof fn lemma_total_mono(m: Objectives, j: usize, x: usize, u: int)
    requires
        0 <= u <= m.cols,
        forall|k: int| 0 <= k < m.cols ==> #[trigger] m.at(j, k) >= m.at(x, k),
    ensures
        total(m, j, u) >= total(m, x, u),
        (exists|k: int| 0 <= k < u && #[trigger] m.at(j, k) > m.at(x, k)) ==> total(m, j, u) > total(m, x, u),
    decreases u,
{
    if u > 0 {
        lemma_total_mono(m, j, x, u - 1);
        assert(m.at(j, u - 1) >= m.at(x, u - 1));
        if exists|k: int| 0 <= k < u && #[trigger] m.at(j, k) > m.at(x, k) {
            let k = choose|k: int| 0 <= k < u && #[trigger] m.at(j, k) > m.at(x, k);
            if k < u - 1 {
                assert(exists|k: int| 0 <= k < u - 1 && #[trigger] m.at(j, k) > m.at(x, k));
            }
        }
    }
}

/// A dominating candidate has the larger sum of objectives.
proof fn lemma_dominates_total(m: Objectives, j: usize, x: usize)
    requires
        dominates(m, j, x),
    ensures
        total(m, j, m.cols as int) > total(m, x, m.cols as int),
{
    lemma_total_mono(m, j, x, m.cols as int);
}

/// A member of `s` below `upto` with the largest sum of objectives.
pub open spec fn best_below(m: Objectives, s: Set<usize>, upto: nat) -> Option<usize>
    decreases upto,
{
    if upto == 0 {
        None
    } else {
        let b = best_below(m, s, (upto - 1) as nat);
        let c = (upto - 1) as usize;
        if s.contains(c) && (b is None || total(m, c, m.cols as int) > total(m, b->0, m.cols as int)) {
            Some(c)
        } else {
            b
        }
    }
}

proof fn lemma_best_below(m: Objectives, s: Set<usize>, upto: nat)
    requires
        upto <= usize::MAX + 1,
    ensures
        best_below(m, s, upto) matches Some(b) ==> {
            &&& s.contains(b)
            &&& b < upto
            &&& forall|y: usize|
                y < upto && s.contains(y) ==> #[trigger] total(m, y, m.cols as int) <= total(m, b, m.cols as int)
        },
        (exists|y: usize| y < upto && #[trigger] s.contains(y)) ==> best_below(m, s, upto) is Some,
    decreases upto,
{
    if upto > 0 {
        lemma_best_below(m, s, (upto - 1) as nat);
        if exists|y: usize| y < upto && #[trigger] s.contains(y) {
            let y = choose|y: usize| y < upto && #[trigger] s.contains(y);
            if y < upto - 1 {
                assert(exists|y: usize| y < upto - 1 && #[trigger] s.contains(y));
            }
        }
    }
}

/// A nonempty set of candidates has a member that none of them dominates.
proof fn lemma_front_nonempty(m: Objectives, rem: Set<usize>, n: nat, x: usize)
    requires
        n <= usize::MAX + 1,
        rem.contains(x),
        forall|y: usize| #[trigger] rem.contains(y) ==> y < n,
    ensures
        exists|y: usize| #[trigger] front_of(m, rem).contains(y),
{
    lemma_best_below(m, rem, n);
    let b = best_below(m, rem, n)->0;
    assert forall|j: usize| rem.contains(j) implies !dominates(m, j, b) by {
        if dominates(m, j, b) {
            lemma_dominates_total(m, j, b);
            assert(total(m, j, m.cols as int) <= total(m, b, m.cols as int));
        }
    }
    assert(front_of(m, rem).contains(b));
}

/// Candidate `i` is at least as good as `j` in every objective.
pub open spec fn all_at_least(m: Objectives, i: usize, j: usize) -> bool {
    forall|k: int| 0 <= k < m.cols ==> #[trigger] m.at(i, k) >= m.at(j, k)
}

/// Compares candidate `i` with `j` objective by objective and stops at the
/// first objective in which `i` is worse: whether `i` is at least as good
/// everywhere, and whether it is better somewhere.
fn compare(m: &Objectives, i: usize, j: usize) -> (r: (bool, bool))
    requires
        m.wf(),
        i < m.n(),
        j < m.n(),
    ensures
        r.0 == all_at_least(*m, i, j),
        r.0 && r.1 <==> dominates(*m, i, j),
{
    let mut all_gte = true;
    let mut any_gt = false;
    let mut k: usize = 0;
    while k < m.cols
        invariant
            m.wf(),
            i < m.n(),
            j < m.n(),
            k <= m.cols,
            all_gte ==> forall|q: int| 0 <= q < k ==> #[trigger] m.at(i, q) >= m.at(j, q),
            all_gte ==> (any_gt <==> exists|q: int| 0 <= q < k && #[trigger] m.at(i, q) > m.at(j, q)),
            !all_gte ==> exists|q: int| 0 <= q < m.cols && #[trigger] m.at(i, q) < m.at(j, q),
        ensures
            all_gte ==> forall|q: int| 0 <= q < m.cols ==> #[trigger] m.at(i, q) >= m.at(j, q),
            all_gte ==> (any_gt <==> exists|q: int| 0 <= q < m.cols && #[trigger] m.at(i, q) > m.at(j, q)),
            !all_gte ==> exists|q: int| 0 <= q < m.cols && #[trigger] m.at(i, q) < m.at(j, q),
        decreases m.cols - k,
    {
        let a = objective(m, i, k);
        let b = objective(m, j, k);
        if a < b {
            all_gte = false;
            assert(m.at(i, k as int) < m.at(j, k as int));
            break;
        }
        if a > b {
            any_gt = true;
        }
        k = k + 1;
    }
    proof {
        if !all_gte {
            let q = choose|q: int| 0 <= q < m.cols && #[trigger] m.at(i, q) < m.at(j, q);
            assert(!(m.at(i, q) >= m.at(j, q)));
        }
    }
    (all_gte, any_gt)
}

/// Lowers the count of each target by one and appends, in target order, the
/// targets whose count reaches zero.
fn release(count: &mut Vec<usize>, targets: &Vec<usize>, next: &mut Vec<usize>)
    requires
        targets@.no_duplicates(),
        forall|b: int| 0 <= b < targets@.len() ==> #[trigger] targets@[b] < old(count)@.len(),
        forall|b: int| 0 <= b < targets@.len() ==> old(count)@[#[trigger] targets@[b] as int] >= 1,
        old(next)@.no_duplicates(),
        forall|y: usize|
            #[trigger] targets@.contains(y) && old(count)@[y as int] == 1 ==> !old(next)@.contains(y),
        forall|p: int, q: int| 0 <= p < q < targets@.len() ==> #[trigger] targets@[p] < #[trigger] targets@[q],
    ensures
        final(next)@.len() >= old(next)@.len(),
        final(next)@.subrange(0, old(next)@.len() as int) == old(next)@,
        forall|p: int, q: int|
            old(next)@.len() <= p < q < final(next)@.len() ==> #[trigger] final(next)@[p] < #[trigger] final(next)@[q],
        forall|p: int|
            old(next)@.len() <= p < final(next)@.len() ==> targets@.contains(#[trigger] final(next)@[p]),
        final(count)@.len() == old(count)@.len(),
        forall|y: usize|
            y < old(count)@.len() ==> #[trigger] final(count)@[y as int] == old(count)@[y as int] - (if targets@.contains(
                y,
            ) {
                1int
            } else {
                0int
            }),
        final(next)@.no_duplicates(),
        forall|y: usize|
            #[trigger] final(next)@.contains(y) <==> (old(next)@.contains(y) || (targets@.contains(y)
                && old(count)@[y as int] == 1)),
{
    let ghost count0 = count@;
    let ghost next0 = next@;
    let mut b: usize = 0;
    while b < targets.len()
        invariant
            targets@.no_duplicates(),
            forall|c: int| 0 <= c < targets@.len() ==> #[trigger] targets@[c] < count0.len(),
            forall|c: int| 0 <= c < targets@.len() ==> count0[#[trigger] targets@[c] as int] >= 1,
            next0.no_duplicates(),
            forall|y: usize| #[trigger] targets@.contains(y) && count0[y as int] == 1 ==> !next0.contains(y),
            forall|p: int, q: int| 0 <= p < q < targets@.len() ==> #[trigger] targets@[p] < #[trigger] targets@[q],
            next@.len() >= next0.len(),
            next@.subrange(0, next0.len() as int) == next0,
            forall|p: int, q: int| next0.len() <= p < q < next@.len() ==> #[trigger] next@[p] < #[trigger] next@[q],
            forall|p: int|
                next0.len() <= p < next@.len() ==> exists|c: int| 0 <= c < b && targets@[c] == #[trigger] next@[p],
            b <= targets@.len(),
            count@.len() == count0.len(),
            forall|y: usize|
                y < count0.len() ==> #[trigger] count@[y as int] == count0[y as int] - (if targets@.subrange(
                    0,
                    b as int,
                ).contains(y) {
                    1int
                } else {
                    0int
                }),
            next@.no_duplicates(),
            forall|y: usize|
                #[trigger] next@.contains(y) <==> (next0.contains(y) || (targets@.subrange(0, b as int).contains(y)
                    && count0[y as int] == 1)),
        decreases targets@.len() - b,
    {
        let y = targets[b];
        let ghost pre = targets@.subrange(0, b as int);
        let ghost pre1 = targets@.subrange(0, b + 1);
        let ghost count1 = count@;
        let ghost next1 = next@;
        assert(pre1 =~= pre.push(y));
        assert(!pre.contains(y)) by {
            if pre.contains(y) {
                let w = choose|w: int| 0 <= w < pre.len() && pre[w] == y;
                assert(targets@[w] == targets@[b as int]);
            }
        }
        assert(targets@.contains(y)) by {
            assert(targets@[b as int] == y);
        }
        assert(count@[y as int] == count0[y as int]);
        let c = count[y] - 1;
        count.set(y, c);
        if c == 0 {
            assert(!next1.contains(y));
            next.push(y);
            proof {
                assert forall|p: int| next0.len() <= p < next1.len() implies next@[p] < y by {
                    let w = choose|w: int| 0 <= w < b && targets@[w] == next1[p];
                    assert(targets@[w] < targets@[b as int]);
                }
                assert(next@[next1.len() as int] == targets@[b as int]);
            }
        }
        proof {
            assert(next@.subrange(0, next0.len() as int) =~= next0);
        }
        proof {
            assert forall|z: usize| pre1.contains(z) <==> (pre.contains(z) || z == y) by {
                if pre1.contains(z) && z != y {
                    let w = choose|w: int| 0 <= w < pre1.len() && pre1[w] == z;
                    assert(pre[w] == z);
                }
                if pre.contains(z) {
                    let w = choose|w: int| 0 <= w < pre.len() && pre[w] == z;
                    assert(pre1[w] == z);
                }
                if z == y {
                    assert(pre1[b as int] == z);
                }
            }
            assert forall|z: usize| z < count0.len() implies #[trigger] count@[z as int] == count0[z as int] - (
            if pre1.contains(z) {
                1int
            } else {
                0int
            }) by {
                if z != y {
                    assert(count@[z as int] == count1[z as int]);
                }
            }
            assert forall|z: usize| #[trigger] next@.contains(z) <==> (next0.contains(z) || (pre1.contains(z)
                && count0[z as int] == 1)) by {
                if c == 0 {
                    if next@.contains(z) && z != y {
                        let w = choose|w: int| 0 <= w < next@.len() && next@[w] == z;
                        assert(next1[w] == z);
                        assert(next1.contains(z));
                    }
                    if next1.contains(z) {
                        let w = choose|w: int| 0 <= w < next1.len() && next1[w] == z;
                        assert(next@[w] == z);
                    }
                    if z == y {
                        assert(next@[next@.len() - 1] == z);
                    }
                }
            }
            if c == 0 {
                assert forall|p: int, q: int| 0 <= p < q < next@.len() implies next@[p] != next@[q] by {
                    if q == next@.len() - 1 {
                        assert(next1.contains(next1[p]));
                    }
                }
            }
        }
        b = b + 1;
    }
    proof {
        assert(targets@.subrange(0, targets@.len() as int) =~= targets@);
    }
}

/// The domination count of every candidate, and the candidates each one
/// dominates in ascending order.
fn domination_tables(m: &Objectives) -> (r: (Vec<usize>, Vec<Vec<usize>>))
    requires
        m.wf(),
    ensures
        r.0@.len() == m.n(),
        r.1@.len() == m.n(),
        forall|x: usize|
            x < m.n() ==> #[trigger] r.0@[x as int] == count_below(dominators(*m, left_after(*m, 0), x), m.n()),
        forall|i: int| 0 <= i < m.n() ==> (#[trigger] r.1@[i])@.no_duplicates(),
        forall|i: int, y: usize|
            0 <= i < m.n() ==> (#[trigger] r.1@[i]@.contains(y) <==> (y < m.n() && dominates(*m, i as usize, y))),
        forall|i: int, p: int, q: int|
            0 <= i < m.n() && 0 <= p < q < r.1@[i]@.len() ==> #[trigger] r.1@[i]@[p] < #[trigger] r.1@[i]@[q],
{
    let n = m.rows.len();
    let ghost all = left_after(*m, 0);
    let mut count: Vec<usize> = Vec::with_capacity(n);
    let mut dominated: Vec<Vec<usize>> = Vec::with_capacity(n);
    let mut i: usize = 0;
    while i < n
        invariant
            m.wf(),
            n == m.n(),
            all == left_after(*m, 0),
            i <= n,
            count@.len() == i,
            dominated@.len() == i,
            forall|x: usize| x < i ==> #[trigger] count@[x as int] == count_below(dominators(*m, all, x), n as nat),
            forall|x: int| 0 <= x < i ==> (#[trigger] dominated@[x])@.no_duplicates(),
            forall|x: int, y: usize|
                0 <= x < i ==> (#[trigger] dominated@[x]@.contains(y) <==> (y < n && dominates(*m, x as usize, y))),
            forall|x: int, p: int, q: int|
                0 <= x < i && 0 <= p < q < dominated@[x]@.len() ==> #[trigger] dominated@[x]@[p]
                    < #[trigger] dominated@[x]@[q],
        decreases n - i,
    {
        let mut c: usize = 0;
        let mut row: Vec<usize> = Vec::new();
        let mut j: usize = 0;
        while j < n
            invariant
                m.wf(),
                n == m.n(),
                all == left_after(*m, 0),
                i < n,
                j <= n,
                c <= j,
                c == count_below(dominators(*m, all, i), j as nat),
                row@.no_duplicates(),
                forall|a: int| 0 <= a < row@.len() ==> #[trigger] row@[a] < j,
                forall|p: int, q: int| 0 <= p < q < row@.len() ==> #[trigger] row@[p] < #[trigger] row@[q],
                forall|y: usize| #[trigger] row@.contains(y) <==> (y < j && dominates(*m, i, y)),
            decreases n - j,
        {
            let ghost old_row = row@;
            let ghost d = dominators(*m, all, i);
            assert(d.contains(j) <==> dominates(*m, j, i));
            if i != j {
                let (all_gte, any_gt) = compare(m, i, j);
                if all_gte && any_gt {
                    row.push(j);
                    assert(!dominates(*m, j, i)) by {
                        if dominates(*m, j, i) {
                            let k = choose|k: int| 0 <= k < m.cols && #[trigger] m.at(i, k) > m.at(j, k);
                            assert(m.at(j, k) >= m.at(i, k));
                        }
                    }
                } else if !all_gte {
                    let (j_gte, j_gt) = compare(m, j, i);
                    if j_gte && j_gt {
                        c = c + 1;
                    }
                } else {
                    assert(!dominates(*m, j, i)) by {
                        if dominates(*m, j, i) {
                            let k = choose|k: int| 0 <= k < m.cols && #[trigger] m.at(j, k) > m.at(i, k);
                            assert(m.at(i, k) >= m.at(j, k));
                        }
                    }
                }
            } else {
                assert(!dominates(*m, i, i)) by {
                    if dominates(*m, i, i) {
                        let k = choose|k: int| 0 <= k < m.cols && #[trigger] m.at(i, k) > m.at(i, k);
                    }
                }
            }
            proof {
                assert forall|y: usize| #[trigger] row@.contains(y) <==> (y < j + 1 && dominates(*m, i, y)) by {
                    if row@.len() > old_row.len() {
                        if row@.contains(y) && y != j {
                            let w = choose|w: int| 0 <= w < row@.len() && row@[w] == y;
                            assert(old_row[w] == y);
                        }
                        if old_row.contains(y) {
                            let w = choose|w: int| 0 <= w < old_row.len() && old_row[w] == y;
                            assert(row@[w] == y);
                        }
                        if y == j {
                            assert(row@[row@.len() - 1] == y);
                        }
                    } else {
                        if y == j {
                            assert(!row@.contains(y));
                        }
                    }
                }
                if row@.len() > old_row.len() {
                    assert forall|p: int, q: int| 0 <= p < q < row@.len() implies row@[p] != row@[q] by {
                        if q == row@.len() - 1 {
                            assert(old_row[p] < j);
                        }
                    }
                }
            }
            j = j + 1;
        }
        count.push(c);
        dominated.push(row);
        proof {
            assert forall|x: int, y: usize|
                0 <= x < i + 1 implies (#[trigger] dominated@[x]@.contains(y) <==> (y < n && dominates(*m, x as usize, y))) by {
                if x == i {
                    assert(dominated@[x]@ == row@);
                }
            }
            assert forall|x: int, p: int, q: int|
                0 <= x < i + 1 && 0 <= p < q < dominated@[x]@.len() implies #[trigger] dominated@[x]@[p]
                < #[trigger] dominated@[x]@[q] by {
                if x == i {
                    assert(dominated@[x]@ == row@);
                }
            }
        }
        i = i + 1;
    }
    (count, dominated)
}

/// The position in `cur` of the last candidate there that dominates `y`, or
/// -1 when none does.
pub open spec fn last_dominator(m: Objectives, cur: Seq<usize>, y: usize) -> int
    decreases cur.len(),
{
    if cur.len() == 0 {
        -1
    } else if dominates(m, cur.last(), y) {
        cur.len() - 1
    } else {
        last_dominator(m, cur.drop_last(), y)
    }
}

/// `next` lists its candidates by the position in `prev` of their last
/// dominator there, and those with the same last dominator by index.
pub open spec fn count_order(m: Objectives, prev: Seq<usize>, next: Seq<usize>) -> bool {
    forall|p: int, q: int|
        0 <= p < q < next.len() ==> {
            ||| last_dominator(m, prev, #[trigger] next[p]) < last_dominator(m, prev, #[trigger] next[q])
            ||| last_dominator(m, prev, next[p]) == last_dominator(m, prev, next[q]) && next[p] < next[q]
        }
}

/// Every front after the first is listed in `count_order` after the one
/// before it.
pub open spec fn fronts_in_count_order(m: Objectives, fronts: Seq<Seq<usize>>) -> bool {
    forall|t: int| 0 < t < fronts.len() ==> count_order(m, #[trigger] fronts[t - 1], fronts[t])
}

/// The last dominator lies inside `cur`.
proof fn lemma_last_dominator_bound(m: Objectives, cur: Seq<usize>, y: usize)
    ensures
        -1 <= last_dominator(m, cur, y) < cur.len(),
    decreases cur.len(),
{
    if cur.len() > 0 {
        lemma_last_dominator_bound(m, cur.drop_last(), y);
    }
}

/// The candidates of `rem` not listed in `done`.
pub open spec fn alive_after(rem: Set<usize>, done: Seq<usize>) -> Set<usize> {
    rem.filter(|x: usize| !done.contains(x))
}

/// Non-dominated sorting by domination counts: the first front holds the
/// candidates nothing dominates, in ascending order; each later front holds
/// the candidates whose last dominator sat in the front before, in the order
/// in which their counts reached zero.
fn non_domin_sort_counts(m: &Objectives) -> (fronts: Vec<Vec<usize>>)
    requires
        m.wf(),
    ensures
        is_front_sort(*m, views(fronts@)),
        fronts@.len() > 0 ==> forall|p: int, q: int|
            0 <= p < q < fronts@[0]@.len() ==> #[trigger] fronts@[0]@[p] < #[trigger] fronts@[0]@[q],
        fronts_in_count_order(*m, views(fronts@)),
{
    let n = m.rows.len();
    let mut fronts: Vec<Vec<usize>> = Vec::new();
    if n == 0 {
        return fronts;
    }
    let (mut count, dominated) = domination_tables(m);
    let ghost all = left_after(*m, 0);
    let mut current: Vec<usize> = Vec::new();
    let mut i: usize = 0;
    while i < n
        invariant
            n == m.n(),
            count@.len() == n,
            i <= n,
            forall|x: usize| x < n ==> #[trigger] count@[x as int] == count_below(dominators(*m, all, x), n as nat),
            current@.no_duplicates(),
            forall|a: int| 0 <= a < current@.len() ==> #[trigger] current@[a] < i,
            forall|p: int, q: int| 0 <= p < q < current@.len() ==> #[trigger] current@[p] < #[trigger] current@[q],
            forall|y: usize| #[trigger] current@.contains(y) <==> (y < i && count@[y as int] == 0),
        decreases n - i,
    {
        let ghost old_current = current@;
        if count[i] == 0 {
            current.push(i);
        }
        proof {
            assert forall|y: usize| #[trigger] current@.contains(y) <==> (y < i + 1 && count@[y as int] == 0) by {
                if current@.len() > old_current.len() {
                    if current@.contains(y) && y != i {
                        let w = choose|w: int| 0 <= w < current@.len() && current@[w] == y;
                        assert(old_current[w] == y);
                    }
                    if old_current.contains(y) {
                        let w = choose|w: int| 0 <= w < old_current.len() && old_current[w] == y;
                        assert(current@[w] == y);
                    }
                    if y == i {
                        assert(current@[current@.len() - 1] == y);
                    }
                } else if y == i {
                    assert(!current@.contains(y));
                }
            }
        }
        i = i + 1;
    }
    proof {
        assert forall|y: usize| #[trigger] current@.contains(y) <==> front_of(*m, all).contains(y) by {
            if y < n {
                lemma_count_zero(dominators(*m, all, y), n as nat);
                if count@[y as int] == 0 {
                    assert forall|j: usize| all.contains(j) implies !dominates(*m, j, y) by {
                        if dominates(*m, j, y) {
                            assert(dominators(*m, all, y).contains(j));
                        }
                    }
                } else {
                    let j = choose|j: usize| j < n && #[trigger] dominators(*m, all, y).contains(j);
                    assert(all.contains(j) && dominates(*m, j, y));
                }
            }
        }
    }
    while current.len() > 0
        invariant
            m.wf(),
            n == m.n(),
            n > 0,
            count@.len() == n,
            dominated@.len() == n,
            forall|x: int| 0 <= x < n ==> (#[trigger] dominated@[x])@.no_duplicates(),
            forall|x: int, y: usize|
                0 <= x < n ==> (#[trigger] dominated@[x]@.contains(y) <==> (y < n && dominates(*m, x as usize, y))),
            forall|x: usize| #[trigger] left_after(*m, fronts@.len() as nat).contains(x) ==> x < n,
            forall|x: usize, y: usize|
                #[trigger] left_after(*m, fronts@.len() as nat).contains(x) && y < n && #[trigger] dominates(*m, x, y)
                    ==> left_after(*m, fronts@.len() as nat).contains(y),
            forall|x: usize|
                x < n && #[trigger] left_after(*m, fronts@.len() as nat).contains(x) ==> count@[x as int]
                    == count_below(dominators(*m, left_after(*m, fronts@.len() as nat), x), n as nat),
            lists(current@, front_of(*m, left_after(*m, fronts@.len() as nat))),
            is_front_sort_prefix(*m, views(fronts@)),
            fronts@.len() == 0 ==> forall|p: int, q: int|
                0 <= p < q < current@.len() ==> #[trigger] current@[p] < #[trigger] current@[q],
            fronts@.len() > 0 ==> forall|p: int, q: int|
                0 <= p < q < fronts@[0]@.len() ==> #[trigger] fronts@[0]@[p] < #[trigger] fronts@[0]@[q],
            forall|x: int, p: int, q: int|
                0 <= x < n && 0 <= p < q < dominated@[x]@.len() ==> #[trigger] dominated@[x]@[p]
                    < #[trigger] dominated@[x]@[q],
            fronts_in_count_order(*m, views(fronts@)),
            fronts@.len() > 0 ==> count_order(*m, fronts@.last()@, current@),
        decreases count_below(left_after(*m, fronts@.len() as nat), n as nat),
    {
        let ghost t = fronts@.len() as nat;
        let ghost rem = left_after(*m, t);
        let ghost front_set = front_of(*m, rem);
        let ghost rest = left_after(*m, t + 1);
        assert(rest == rem.difference(front_set));
        let mut next: Vec<usize> = Vec::new();
        let mut a: usize = 0;
        assert(alive_after(rem, current@.subrange(0, 0)) =~= rem);
        proof {
            assert forall|y: usize| rest.contains(y) implies count_below(dominators(*m, rem, y), n as nat) > 0 by {
                lemma_count_zero(dominators(*m, rem, y), n as nat);
                assert(!front_set.contains(y));
                assert(!undominated(*m, rem, y));
                let j = choose|j: usize| #[trigger] rem.contains(j) && dominates(*m, j, y);
                assert(dominators(*m, rem, y).contains(j));
            }
        }
        while a < current.len()
            invariant
                m.wf(),
                n == m.n(),
                count@.len() == n,
                dominated@.len() == n,
                forall|x: int| 0 <= x < n ==> (#[trigger] dominated@[x])@.no_duplicates(),
                forall|x: int, y: usize|
                    0 <= x < n ==> (#[trigger] dominated@[x]@.contains(y) <==> (y < n && dominates(
                        *m,
                        x as usize,
                        y,
                    ))),
                rem == left_after(*m, t),
                front_set == front_of(*m, rem),
                rest == rem.difference(front_set),
                forall|x: usize| #[trigger] rem.contains(x) ==> x < n,
                forall|x: usize, y: usize|
                    #[trigger] rem.contains(x) && y < n && #[trigger] dominates(*m, x, y) ==> rem.contains(y),
                lists(current@, front_set),
                a <= current@.len(),
                forall|x: usize|
                    x < n && #[trigger] rest.contains(x) ==> count@[x as int] == count_below(
                        dominators(*m, alive_after(rem, current@.subrange(0, a as int)), x),
                        n as nat,
                    ),
                next@.no_duplicates(),
                forall|y: usize|
                    #[trigger] next@.contains(y) <==> (rest.contains(y) && count_below(
                        dominators(*m, alive_after(rem, current@.subrange(0, a as int)), y),
                        n as nat,
                    ) == 0),
                forall|x: int, p: int, q: int|
                    0 <= x < n && 0 <= p < q < dominated@[x]@.len() ==> #[trigger] dominated@[x]@[p]
                        < #[trigger] dominated@[x]@[q],
                count_order(*m, current@.subrange(0, a as int), next@),
            decreases current@.len() - a,
        {
            let i = current[a];
            let ghost done = current@.subrange(0, a as int);
            let ghost done1 = current@.subrange(0, a + 1);
            let ghost alive = alive_after(rem, done);
            let ghost alive1 = alive_after(rem, done1);
            let ghost count0 = count@;
            let ghost next0 = next@;
            proof {
                assert(done1 =~= done.push(i));
                assert(current@.contains(i)) by {
                    assert(current@[a as int] == i);
                }
                assert(front_set.contains(i));
                assert(rem.contains(i));
                assert(!done.contains(i)) by {
                    if done.contains(i) {
                        let w = choose|w: int| 0 <= w < done.len() && done[w] == i;
                        assert(current@[w] == current@[a as int]);
                    }
                }
                assert(alive.contains(i));
                assert(alive1 =~= alive.remove(i)) by {
                    assert forall|z: usize| alive1.contains(z) <==> alive.remove(i).contains(z) by {
                        if done1.contains(z) && z != i {
                            let w = choose|w: int| 0 <= w < done1.len() && done1[w] == z;
                            assert(done[w] == z);
                        }
                        if done.contains(z) {
                            let w = choose|w: int| 0 <= w < done.len() && done[w] == z;
                            assert(done1[w] == z);
                        }
                        if z == i {
                            assert(done1[a as int] == z);
                        }
                    }
                }
                assert(i < n);
            }
            let targets = &dominated[i];
            proof {
                assert forall|b: int| 0 <= b < targets@.len() implies #[trigger] targets@[b] < count@.len() by {
                    assert(targets@.contains(targets@[b]));
                }
                assert forall|y: usize| #[trigger] targets@.contains(y) implies {
                    &&& y < n
                    &&& dominates(*m, i, y)
                    &&& rest.contains(y)
                    &&& count@[y as int] == count_below(dominators(*m, alive1, y), n as nat) + 1
                } by {
                    assert(dominated@[i as int]@.contains(y));
                    assert(y < n && dominates(*m, i, y));
                    assert(rem.contains(y));
                    assert(!front_set.contains(y)) by {
                        assert(rem.contains(i) && dominates(*m, i, y));
                        assert(!undominated(*m, rem, y));
                    }
                    assert(rest.contains(y));
                    assert(count@[y as int] == count_below(dominators(*m, alive, y), n as nat));
                    assert(dominators(*m, alive1, y) =~= dominators(*m, alive, y).remove(i));
                    assert(dominators(*m, alive, y).contains(i));
                    lemma_count_remove(dominators(*m, alive, y), i, n as nat);
                }
                assert forall|b: int| 0 <= b < targets@.len() implies count@[#[trigger] targets@[b] as int] >= 1 by {
                    assert(targets@.contains(targets@[b]));
                }
                assert forall|y: usize| #[trigger] targets@.contains(y) && count@[y as int] == 1 implies !next@.contains(
                    y,
                ) by {
                    if next@.contains(y) {
                        lemma_count_remove(dominators(*m, alive, y), i, n as nat);
                        assert(dominators(*m, alive, y).contains(i));
                    }
                }
            }
            release(&mut count, targets, &mut next);
            proof {
                assert forall|x: usize| x < n && #[trigger] rest.contains(x) implies count@[x as int] == count_below(
                    dominators(*m, alive1, x),
                    n as nat,
                ) by {
                    if !targets@.contains(x) {
                        assert(!dominates(*m, i, x));
                        assert(dominators(*m, alive1, x) =~= dominators(*m, alive, x).remove(i));
                        lemma_count_remove(dominators(*m, alive, x), i, n as nat);
                    }
                }
                assert forall|y: usize| #[trigger] next@.contains(y) <==> (rest.contains(y) && count_below(
                    dominators(*m, alive1, y),
                    n as nat,
                ) == 0) by {
                    assert(dominators(*m, alive1, y) =~= dominators(*m, alive, y).remove(i));
                    lemma_count_remove(dominators(*m, alive, y), i, n as nat);
                    if targets@.contains(y) {
                        assert(dominators(*m, alive, y).contains(i));
                    } else if y < n {
                        assert(!dominates(*m, i, y));
                    }
                    if next0.contains(y) {
                        assert(rest.contains(y));
                    }
                }
            }
            proof {
                assert(done1.drop_last() =~= done);
                assert(done1.last() == i);
                assert forall|p: int| 0 <= p < next0.len() implies last_dominator(*m, done1, #[trigger] next@[p])
                    == last_dominator(*m, done, next@[p]) by {
                    let y = next@[p];
                    assert(next@.subrange(0, next0.len() as int)[p] == next0[p]);
                    assert(next0.contains(y)) by {
                        assert(next0[p] == y);
                    }
                    if dominates(*m, i, y) {
                        assert(y < n);
                        assert(dominators(*m, alive, y).contains(i));
                        lemma_count_zero(dominators(*m, alive, y), n as nat);
                    }
                    lemma_last_dominator_bound(*m, done, y);
                }
                assert forall|p: int| next0.len() <= p < next@.len() implies last_dominator(
                    *m,
                    done1,
                    #[trigger] next@[p],
                ) == a by {
                    assert(targets@.contains(next@[p]));
                    assert(dominated@[i as int]@.contains(next@[p]));
                }
                assert forall|p: int, q: int| 0 <= p < q < next@.len() implies {
                    ||| last_dominator(*m, done1, #[trigger] next@[p]) < last_dominator(*m, done1, #[trigger] next@[q])
                    ||| last_dominator(*m, done1, next@[p]) == last_dominator(*m, done1, next@[q]) && next@[p] < next@[q]
                } by {
                    if q < next0.len() {
                        assert(next@[p] == next0[p] && next@[q] == next0[q]) by {
                            assert(next@.subrange(0, next0.len() as int)[p] == next0[p]);
                            assert(next@.subrange(0, next0.len() as int)[q] == next0[q]);
                        }
                    } else if p < next0.len() {
                        lemma_last_dominator_bound(*m, done, next@[p]);
                    }
                }
            }
            a = a + 1;
        }
        proof {
            assert(current@.subrange(0, current@.len() as int) =~= current@);
            assert(alive_after(rem, current@) =~= rest) by {
                assert forall|z: usize| alive_after(rem, current@).contains(z) <==> rest.contains(z) by {
                    if rem.contains(z) {
                        assert(current@.contains(z) <==> front_set.contains(z));
                    }
                }
            }
            assert forall|x: usize| #[trigger] rest.contains(x) implies x < n by {
                assert(rem.contains(x));
            }
            assert forall|x: usize, y: usize|
                #[trigger] rest.contains(x) && y < n && #[trigger] dominates(*m, x, y) implies rest.contains(y) by {
                assert(rem.contains(x));
                assert(rem.contains(y));
                assert(!undominated(*m, rem, y));
            }
            assert forall|y: usize| #[trigger] next@.contains(y) <==> front_of(*m, rest).contains(y) by {
                if rest.contains(y) {
                    lemma_count_zero(dominators(*m, rest, y), n as nat);
                    if count_below(dominators(*m, rest, y), n as nat) == 0 {
                        assert forall|j: usize| rest.contains(j) implies !dominates(*m, j, y) by {
                            if dominates(*m, j, y) {
                                assert(j < n);
                                assert(dominators(*m, rest, y).contains(j));
                            }
                        }
                    } else {
                        let j = choose|j: usize| j < n && #[trigger] dominators(*m, rest, y).contains(j);
                        assert(rest.contains(j) && dominates(*m, j, y));
                    }
                }
            }
            let f0 = current@[0];
            assert(current@.contains(f0));
            assert(front_set.contains(f0));
            assert(rem.contains(f0));
            assert(rest.subset_of(rem));
            lemma_count_subset(rest, rem, n as nat, f0);
            assert(f0 < n);
        }
        let ghost old_fronts = fronts@;
        let ghost cur = current@;
        fronts.push(current);
        proof {
            assert(views(fronts@) =~= views(old_fronts).push(cur));
            assert(left_after(*m, fronts@.len() as nat) == rest);
        }
        current = next;
    }
    proof {
        let rem = left_after(*m, fronts@.len() as nat);
        assert forall|x: usize| !#[trigger] rem.contains(x) by {
            if rem.contains(x) {
                lemma_front_nonempty(*m, rem, n as nat, x);
                let y = choose|y: usize| #[trigger] front_of(*m, rem).contains(y);
                assert(current@.contains(y));
            }
        }
    }
    fronts
}

/// Non-dominated sorting: the two-objective sweep when there are two
/// objectives, the domination-count algorithm otherwise.
pub fn non_domin_sort(m: &Objectives) -> (fronts: Vec<Vec<usize>>)
    requires
        m.wf(),
    ensures
        is_front_sort(*m, views(fronts@)),
        m.cols == 2 ==> fronts_in_sweep_order(*m, views(fronts@)),
        m.cols != 2 && fronts@.len() > 0 ==> forall|p: int, q: int|
            0 <= p < q < fronts@[0]@.len() ==> #[trigger] fronts@[0]@[p] < #[trigger] fronts@[0]@[q],
        m.cols != 2 ==> fronts_in_count_order(*m, views(fronts@)),
{
    if m.cols == 2 {
        non_domin_sort_2d(m)
    } else {
        non_domin_sort_counts(m)
    }
}

/// `arms` is what filling a budget of `budget` arms front by front gives:
/// whole fronts while they fit, then `budget` distinct members of the first
/// front that does not.
pub open spec fn filled(fronts: Seq<Seq<usize>>, budget: int, arms: Seq<usize>) -> bool
    decreases fronts.len(),
{
    if fronts.len() == 0 || budget <= 0 {
        arms.len() == 0
    } else if fronts[0].len() <= budget {
        &&& arms.len() >= fronts[0].len()
        &&& arms.subrange(0, fronts[0].len() as int) == fronts[0]
        &&& filled(fronts.drop_first(), budget - fronts[0].len(), arms.subrange(fronts[0].len() as int, arms.len() as int))
    } else {
        &&& arms.len() == budget
        &&& arms.no_duplicates()
        &&& forall|x: usize| #[trigger] arms.contains(x) ==> fronts[0].contains(x)
    }
}

/// Filling a budget of `budget` arms front by front reaches a front that
/// does not fit the budget left, so that its arms are drawn at random.
pub open spec fn cuts_front(fronts: Seq<Seq<usize>>, budget: int) -> bool
    decreases fronts.len(),
{
    if fronts.len() == 0 || budget <= 0 {
        false
    } else if fronts[0].len() <= budget {
        cuts_front(fronts.drop_first(), budget - fronts[0].len())
    } else {
        true
    }
}

/// The number of candidates in the first `t` fronts.
pub open spec fn leading_total(fronts: Seq<Seq<usize>>, t: int) -> int
    decreases t,
{
    if t <= 0 || fronts.len() == 0 {
        0
    } else {
        fronts[0].len() + leading_total(fronts.drop_first(), t - 1)
    }
}

/// A front is cut exactly when the budget is positive, smaller than the
/// number of all candidates, and not the size of some run of whole leading
/// fronts.
pub proof fn lemma_cut_front_exactly(fronts: Seq<Seq<usize>>, budget: int)
    ensures
        cuts_front(fronts, budget) <==> (0 < budget < leading_total(fronts, fronts.len() as int) && forall|t: int|
            0 <= t <= fronts.len() ==> #[trigger] leading_total(fronts, t) != budget),
    decreases fronts.len(),
{
    let all = leading_total(fronts, fronts.len() as int);
    if fronts.len() == 0 {
        assert(leading_total(fronts, 0) == 0);
    } else {
        let rest = fronts.drop_first();
        let f = fronts[0].len() as int;
        lemma_cut_front_exactly(rest, budget - f);
        assert(all == f + leading_total(rest, rest.len() as int));
        assert forall|t: int| 1 <= t <= fronts.len() implies #[trigger] leading_total(fronts, t) == f
            + leading_total(rest, t - 1) by {}
        if budget <= 0 {
            assert(leading_total(fronts, 0) == 0);
            if budget == 0 {
                assert(leading_total(fronts, 0) == budget);
            }
        } else if f <= budget {
            if cuts_front(fronts, budget) {
                assert forall|t: int| 0 <= t <= fronts.len() implies #[trigger] leading_total(fronts, t) != budget by {
                    if t >= 1 {
                        assert(leading_total(rest, t - 1) != budget - f);
                    } else {
                        assert(leading_total(fronts, 0) == 0);
                    }
                }
            } else {
                if 0 < budget < all && forall|t: int| 0 <= t <= fronts.len() ==> #[trigger] leading_total(fronts, t)
                    != budget {
                    assert forall|t: int| 0 <= t <= rest.len() implies #[trigger] leading_total(rest, t) != budget - f by {
                        assert(leading_total(fronts, t + 1) == f + leading_total(rest, t));
                    }
                    if budget - f == 0 {
                        assert(leading_total(fronts, 1) == f + leading_total(rest, 0));
                        assert(leading_total(rest, 0) == 0);
                    }
                }
            }
        } else {
            assert(leading_total(fronts, 0) == 0);
            assert forall|t: int| 0 <= t <= fronts.len() implies #[trigger] leading_total(fronts, t) != budget by {
                if t >= 1 {
                    lemma_leading_total_nonneg(rest, t - 1);
                }
            }
            lemma_leading_total_nonneg(rest, rest.len() as int);
        }
    }
}

/// A Pareto selection whose generator moved only when it cut a front (as
/// `select` ensures) drew from the generator exactly when the arm budget is
/// positive, below the number of candidates, and not the size of a run of
/// whole leading fronts: the arms of the front that does not fit are then a
/// random draw, and otherwise the selection is whole fronts with the
/// generator untouched.
pub proof fn lemma_pareto_draws_when_budget_splits_a_front(
    fronts: Seq<Seq<usize>>,
    budget: int,
    before: StdRng,
    after: StdRng,
)
    requires
        cuts_front(fronts, budget) <==> after != before,
    ensures
        after != before <==> (0 < budget < leading_total(fronts, fronts.len() as int) && forall|t: int|
            0 <= t <= fronts.len() ==> #[trigger] leading_total(fronts, t) != budget),
{
    lemma_cut_front_exactly(fronts, budget);
}

proof fn lemma_leading_total_nonneg(fronts: Seq<Seq<usize>>, t: int)
    ensures
        leading_total(fronts, t) >= 0,
    decreases t,
{
    if t > 0 && fronts.len() > 0 {
        lemma_leading_total_nonneg(fronts.drop_first(), t - 1);
    }
}

/// The text of a matrix shape, as `[rows, cols]`.
pub open spec fn shape_text(rows: nat, cols: nat) -> Seq<char> {
    "["@ + decimal(rows) + ", "@ + decimal(cols) + "]"@
}

/// The message of a shape mismatch between the means and the standard errors.
pub open spec fn shape_message(mu_rows: nat, mu_cols: nat, se_rows: nat, se_cols: nat) -> Seq<char> {
    "mu shape "@ + shape_text(mu_rows, mu_cols) + " does not match se shape "@ + shape_text(se_rows, se_cols)
}

fn push_shape(out: &mut String, rows: usize, cols: usize)
    ensures
        final(out)@ == old(out)@ + shape_text(rows as nat, cols as nat),
{
    out.append("[");
    push_decimal(out, rows as u64);
    out.append(", ");
    push_decimal(out, cols as u64);
    out.append("]");
    proof {
        reveal_strlit("[");
        reveal_strlit(", ");
        reveal_strlit("]");
        assert(final(out)@ =~= old(out)@ + shape_text(rows as nat, cols as nat));
    }
}

/// Pareto front acquisition optimizer for multi-objective problems.
pub struct ParetoAcquisition;

impl ParetoAcquisition {
    /// Create new Pareto acquisition optimizer.
    pub fn new() -> (r: Self) {
        Self
    }

    /// Non-dominated sorting of the candidates' objectives.
    pub fn non_domin_sort(&self, objectives: &Objectives) -> (fronts: Vec<Vec<usize>>)
        requires
            objectives.wf(),
        ensures
            is_front_sort(*objectives, views(fronts@)),
            objectives.cols == 2 ==> fronts_in_sweep_order(*objectives, views(fronts@)),
            objectives.cols != 2 && fronts@.len() > 0 ==> forall|p: int, q: int|
                0 <= p < q < fronts@[0]@.len() ==> #[trigger] fronts@[0]@[p] < #[trigger] fronts@[0]@[q],
            objectives.cols != 2 ==> fronts_in_count_order(*objectives, views(fronts@)),
    {
        non_domin_sort(objectives)
    }

    /// Selects arms from the Pareto fronts of the predicted objectives `mu`:
    /// whole fronts in order while they fit in `num_arms`, then a random
    /// choice from the first front that does not. `se_rows` and `se_cols`
    /// give the shape of the standard errors, which must match that of `mu`.
    /// A single objective is handled by a separate two-dimensional front
    /// routine, which this function does not cover.
    pub fn select(
        &self,
        mu: &Objectives,
        se_rows: usize,
        se_cols: usize,
        num_arms: usize,
        rng: &mut StdRng,
    ) -> (r: Result<Vec<usize>, AcquisitionError>)
        requires
            mu.wf(),
            mu.cols == 1 ==> (mu.n() == 0 || num_arms == 0 || se_rows != mu.n() || se_cols != mu.cols),
        ensures
            match r {
                Err(e) => {
                    ||| mu.n() == 0 && e == AcquisitionError::NoCandidates
                    ||| {
                        &&& mu.n() > 0
                        &&& num_arms > 0
                        &&& (se_rows != mu.n() || se_cols != mu.cols)
                        &&& e matches AcquisitionError::InvalidParameter(msg) && msg@ == shape_message(
                            mu.n(),
                            mu.cols as nat,
                            se_rows as nat,
                            se_cols as nat,
                        )
                    }
                },
                Ok(arms) => {
                    &&& mu.n() > 0
                    &&& num_arms == 0 ==> arms@.len() == 0
                    &&& num_arms > 0 ==> {
                        &&& se_rows == mu.n()
                        &&& se_cols == mu.cols
                        &&& exists|fronts: Seq<Seq<usize>>|
                            {
                                &&& #[trigger] is_front_sort(*mu, fronts)
                                &&& mu.cols == 2 ==> fronts_in_sweep_order(*mu, fronts)
                                &&& mu.cols != 2 && fronts.len() > 0 ==> forall|p: int, q: int|
                                    0 <= p < q < fronts[0].len() ==> #[trigger] fronts[0][p] < #[trigger] fronts[0][q]
                                &&& mu.cols != 2 ==> fronts_in_count_order(*mu, fronts)
                                &&& filled(fronts, num_arms as int, arms@)
                                &&& (cuts_front(fronts, num_arms as int) <==> *final(rng) != *old(rng))
                            }
                    }
                    &&& num_arms == 0 ==> *final(rng) == *old(rng)
                },
            },
            r is Err ==> *final(rng) == *old(rng),
    {
        let n = mu.rows.len();
        if n == 0 {
            return Err(AcquisitionError::NoCandidates);
        }
        if num_arms == 0 {
            return Ok(Vec::new());
        }
        if n != se_rows || mu.cols != se_cols {
            let mut msg = String::from_str("mu shape ");
            push_shape(&mut msg, n, mu.cols);
            msg.append(" does not match se shape ");
            push_shape(&mut msg, se_rows, se_cols);
            proof {
                reveal_strlit("mu shape ");
                reveal_strlit(" does not match se shape ");
                assert(msg@ =~= shape_message(n as nat, mu.cols as nat, se_rows as nat, se_cols as nat));
            }
            return Err(AcquisitionError::InvalidParameter(msg));
        }
        let fronts = self.non_domin_sort(mu);
        let ghost fs = views(fronts@);
        let mut selected: Vec<usize> = Vec::with_capacity(num_arms);
        let mut t: usize = 0;
        let ghost mut cut_done = false;
        proof {
            assert(fs.skip(0) =~= fs);
            assert forall|rest: Seq<usize>|
                #[trigger] filled(fs.skip(0), num_arms - selected@.len(), rest) implies filled(
                fs,
                num_arms as int,
                selected@ + rest,
            ) by {
                assert(selected@ + rest =~= rest);
            }
        }
        while t < fronts.len()
            invariant
                fs == views(fronts@),
                is_front_sort(*mu, fs),
                mu.cols == 2 ==> fronts_in_sweep_order(*mu, fs),
                mu.cols != 2 && fs.len() > 0 ==> forall|p: int, q: int|
                    0 <= p < q < fs[0].len() ==> #[trigger] fs[0][p] < #[trigger] fs[0][q],
                mu.cols != 2 ==> fronts_in_count_order(*mu, fs),
                t <= fronts@.len(),
                selected@.len() <= num_arms,
                !cut_done ==> *rng == *old(rng) && cuts_front(fs.skip(t as int), num_arms - selected@.len())
                    == cuts_front(fs, num_arms as int),
                cut_done ==> *rng != *old(rng) && cuts_front(fs, num_arms as int) && selected@.len() >= num_arms,
                forall|rest: Seq<usize>|
                    #[trigger] filled(fs.skip(t as int), num_arms - selected@.len(), rest) ==> filled(
                        fs,
                        num_arms as int,
                        selected@ + rest,
                    ),
            ensures
                t == fronts@.len() || selected@.len() >= num_arms,
                !cut_done ==> *rng == *old(rng) && cuts_front(fs.skip(t as int), num_arms - selected@.len())
                    == cuts_front(fs, num_arms as int),
                cut_done ==> *rng != *old(rng) && cuts_front(fs, num_arms as int) && selected@.len() >= num_arms,
                forall|rest: Seq<usize>|
                    #[trigger] filled(fs.skip(t as int), num_arms - selected@.len(), rest) ==> filled(
                        fs,
                        num_arms as int,
                        selected@ + rest,
                    ),
            decreases fronts@.len() - t,
        {
            if selected.len() >= num_arms {
                break;
            }
            let remaining = num_arms - selected.len();
            let front = &fronts[t];
            let ghost before = selected@;
            let ghost budget = remaining as int;
            assert(fs.skip(t as int)[0] == front@);
            assert(fs.skip(t as int).drop_first() =~= fs.skip(t + 1));
            if front.len() <= remaining {
                let mut b: usize = 0;
                while b < front.len()
                    invariant
                        b <= front@.len(),
                        selected@ == before + front@.subrange(0, b as int),
                    decreases front@.len() - b,
                {
                    selected.push(front[b]);
                    b = b + 1;
                    assert(selected@ =~= before + front@.subrange(0, b as int));
                }
                proof {
                    assert(cuts_front(fs.skip(t as int), budget) == cuts_front(fs.skip(t + 1), budget - front@.len()));
                    assert(front@.subrange(0, front@.len() as int) =~= front@);
                    assert forall|rest: Seq<usize>|
                        #[trigger] filled(fs.skip(t + 1), num_arms - selected@.len(), rest) implies filled(
                        fs,
                        num_arms as int,
                        selected@ + rest,
                    ) by {
                        let rest0 = front@ + rest;
                        assert(rest0.subrange(0, front@.len() as int) =~= front@);
                        assert(rest0.subrange(front@.len() as int, rest0.len() as int) =~= rest);
                        assert(filled(fs.skip(t as int), budget, rest0));
                        assert(before + rest0 =~= selected@ + rest);
                    }
                }
            } else {
                let mut shuffled: Vec<usize> = front.clone();
                assert(shuffled@ == front@);
                let ghost front_view = front@;
                proof {
                    assert(fs[t as int] == front_view);
                    assert(fs[t as int].no_duplicates());
                    front_view.lemma_multiset_has_no_duplicates();
                }
                assert(cuts_front(fs.skip(t as int), budget));
                shuffle_indices(&mut shuffled, rng);
                let ghost mixed = shuffled@;
                proof {
                    cut_done = true;
                    broadcast use vstd::seq_lib::group_to_multiset_ensures;

                    mixed.lemma_multiset_has_no_duplicates_conv();
                    assert(mixed.len() == front_view.len()) by {
                        assert(mixed.len() == mixed.to_multiset().len());
                    }
                }
                let mut b: usize = 0;
                while b < remaining
                    invariant
                        remaining < shuffled@.len(),
                        shuffled@ == mixed,
                        b <= remaining,
                        selected@ == before + mixed.subrange(0, b as int),
                    decreases remaining - b,
                {
                    selected.push(shuffled[b]);
                    b = b + 1;
                    assert(selected@ =~= before + mixed.subrange(0, b as int));
                }
                proof {
                    broadcast use vstd::seq_lib::group_to_multiset_ensures;

                    let part = mixed.subrange(0, budget);
                    assert forall|x: usize| #[trigger] part.contains(x) implies front_view.contains(x) by {
                        let w = choose|w: int| 0 <= w < part.len() && part[w] == x;
                        assert(mixed[w] == x);
                        assert(mixed.contains(x));
                        assert(mixed.to_multiset().count(x) > 0);
                    }
                    assert(filled(fs.skip(t as int), budget, part));
                    assert(selected@ =~= before + part);
                    assert forall|rest: Seq<usize>|
                        #[trigger] filled(fs.skip(t + 1), num_arms - selected@.len(), rest) implies filled(
                        fs,
                        num_arms as int,
                        selected@ + rest,
                    ) by {
                        assert(rest.len() == 0);
                        assert(part + rest =~= part);
                        assert(selected@ + rest =~= before + part);
                    }
                }
            }
            t = t + 1;
        }
        proof {
            if !cut_done {
                assert(!cuts_front(fs.skip(t as int), num_arms - selected@.len()));
            }
            assert(filled(fs.skip(t as int), num_arms - selected@.len(), Seq::empty()));
            assert(selected@ + Seq::<usize>::empty() =~= selected@);
        }
        Ok(selected)
    }
}

impl Default for ParetoAcquisition {
    fn default() -> (r: Self) {
        Self::new()
    }
}

/// Domination is transitive.
proof fn lemma_dominates_transitive(m: Objectives, a: usize, b: usize, c: usize)
    requires
        dominates(m, a, b),
        dominates(m, b, c),
    ensures
        dominates(m, a, c),
{
    let k = choose|k: int| 0 <= k < m.cols && #[trigger] m.at(a, k) > m.at(b, k);
    assert(m.at(b, k) >= m.at(c, k));
    assert(0 <= k < m.cols && m.at(a, k) > m.at(c, k));
    assert forall|q: int| 0 <= q < m.cols implies #[trigger] m.at(a, q) >= m.at(c, q) by {
        assert(m.at(a, q) >= m.at(b, q));
        assert(m.at(b, q) >= m.at(c, q));
    }
}

/// Taking fronts away only shrinks what is left, and only candidates are ever left.
proof fn lemma_left_after_shrinks(m: Objectives, s: nat, t: nat)
    requires
        s <= t,
    ensures
        left_after(m, t).subset_of(left_after(m, s)),
        forall|x: usize| #[trigger] left_after(m, t).contains(x) ==> x < m.n(),
    decreases t,
{
    if t > 0 {
        lemma_left_after_shrinks(m, 0, (t - 1) as nat);
        if s < t {
            lemma_left_after_shrinks(m, s, (t - 1) as nat);
        }
    }
}

/// No candidate of a front dominates another candidate of the same front.
pub proof fn lemma_front_antichain(m: Objectives, fronts: Seq<Seq<usize>>, t: int, a: usize, b: usize)
    requires
        is_front_sort(m, fronts),
        0 <= t < fronts.len(),
        fronts[t].contains(a),
        fronts[t].contains(b),
    ensures
        !dominates(m, a, b),
{
    assert(front(m, t as nat).contains(a));
    assert(front(m, t as nat).contains(b));
    let rem = left_after(m, t as nat);
    assert(rem.contains(a));
    assert(undominated(m, rem, b));
}

/// Every candidate lies in exactly one front.
pub proof fn lemma_fronts_partition(m: Objectives, fronts: Seq<Seq<usize>>, x: usize)
    requires
        is_front_sort(m, fronts),
        x < m.n(),
    ensures
        exists|t: int| 0 <= t < fronts.len() && #[trigger] fronts[t].contains(x),
        forall|t1: int, t2: int|
            0 <= t1 < fronts.len() && 0 <= t2 < fronts.len() && #[trigger] fronts[t1].contains(x)
                && #[trigger] fronts[t2].contains(x) ==> t1 == t2,
{
    let n = fronts.len();
    assert(left_after(m, 0).contains(x));
    assert(!left_after(m, n).contains(x));
    let t = lemma_leaves_somewhere(m, x, 0, n);
    assert(front(m, t as nat).contains(x));
    assert(fronts[t].contains(x));
    assert forall|t1: int, t2: int|
        0 <= t1 < fronts.len() && 0 <= t2 < fronts.len() && #[trigger] fronts[t1].contains(x)
            && #[trigger] fronts[t2].contains(x) implies t1 == t2 by {
        assert(front(m, t1 as nat).contains(x));
        assert(front(m, t2 as nat).contains(x));
        if t1 < t2 {
            lemma_left_after_shrinks(m, (t1 + 1) as nat, t2 as nat);
            assert(!left_after(m, (t1 + 1) as nat).contains(x));
        } else if t2 < t1 {
            lemma_left_after_shrinks(m, (t2 + 1) as nat, t1 as nat);
            assert(!left_after(m, (t2 + 1) as nat).contains(x));
        }
    }
}

/// A candidate left after `lo` fronts but not after `hi` fronts leaves in one
/// of the fronts between.
proof fn lemma_leaves_somewhere(m: Objectives, x: usize, lo: nat, hi: nat) -> (t: int)
    requires
        lo < hi,
        left_after(m, lo).contains(x),
        !left_after(m, hi).contains(x),
    ensures
        lo <= t < hi,
        front(m, t as nat).contains(x),
    decreases hi - lo,
{
    if left_after(m, lo + 1).contains(x) {
        lemma_leaves_somewhere(m, x, lo + 1, hi)
    } else {
        assert(left_after(m, lo + 1) == left_after(m, lo).difference(front_of(m, left_after(m, lo))));
        lo as int
    }
}

/// A candidate of a later front is dominated by some candidate of the front
/// just before it.
pub proof fn lemma_later_front_dominated(m: Objectives, fronts: Seq<Seq<usize>>, t: int, x: usize)
    requires
        is_front_sort(m, fronts),
        0 < t < fronts.len(),
        fronts[t].contains(x),
    ensures
        exists|y: usize| #[trigger] fronts[t - 1].contains(y) && dominates(m, y, x),
{
    let prev = left_after(m, (t - 1) as nat);
    assert(front(m, t as nat).contains(x));
    assert(left_after(m, t as nat) == prev.difference(front_of(m, prev)));
    assert(prev.contains(x));
    assert(!front_of(m, prev).contains(x));
    let j = choose|j: usize| #[trigger] prev.contains(j) && dominates(m, j, x);
    let ds = dominators(m, prev, x);
    lemma_left_after_shrinks(m, 0, (t - 1) as nat);
    assert(ds.contains(j));
    let bound: nat = usize::MAX as nat + 1;
    lemma_best_below(m, ds, bound);
    let y = best_below(m, ds, bound)->0;
    assert(ds.contains(y));
    assert forall|z: usize| prev.contains(z) implies !dominates(m, z, y) by {
        if dominates(m, z, y) {
            lemma_dominates_transitive(m, z, y, x);
            assert(ds.contains(z));
            lemma_dominates_total(m, z, y);
            assert(total(m, z, m.cols as int) <= total(m, y, m.cols as int));
        }
    }
    assert(front_of(m, prev).contains(y));
    assert(front(m, (t - 1) as nat).contains(y));
    assert(fronts[t - 1].contains(y));
}

/// No candidate of a later front dominates a candidate of an earlier front.
pub proof fn lemma_earlier_front_undominated(
    m: Objectives,
    fronts: Seq<Seq<usize>>,
    t: int,
    s: int,
    x: usize,
    y: usize,
)
    requires
        is_front_sort(m, fronts),
        0 <= t < s < fronts.len(),
        fronts[t].contains(x),
        fronts[s].contains(y),
    ensures
        !dominates(m, y, x),
{
    assert(front(m, t as nat).contains(x));
    assert(front(m, s as nat).contains(y));
    lemma_left_after_shrinks(m, t as nat, s as nat);
    let rem = left_after(m, t as nat);
    assert(left_after(m, s as nat).contains(y));
    assert(rem.contains(y));
    assert(undominated(m, rem, x));
}

/// Some front holds `x`.
pub open spec fn in_some_front(fronts: Seq<Seq<usize>>, x: usize) -> bool {
    exists|t: int| 0 <= t < fronts.len() && #[trigger] fronts[t].contains(x)
}

/// What non-dominated sorting returns (`non_domin_sort`, whose result meets
/// `is_front_sort`) is a partition of the candidates into fronts ordered by
/// dominance: every candidate lies in exactly one front, no candidate of a
/// front dominates another of it or one of an earlier front, and every
/// candidate of a later front is dominated by one of the front before.
pub proof fn lemma_fronts_ordered_partition(m: Objectives, fronts: Seq<Seq<usize>>)
    requires
        is_front_sort(m, fronts),
    ensures
        forall|x: usize| x < m.n() ==> #[trigger] in_some_front(fronts, x),
        forall|x: usize, t1: int, t2: int|
            0 <= t1 < fronts.len() && 0 <= t2 < fronts.len() && #[trigger] fronts[t1].contains(x)
                && #[trigger] fronts[t2].contains(x) ==> t1 == t2,
        forall|t: int, s: int, x: usize, y: usize|
            0 <= t <= s < fronts.len() && #[trigger] fronts[t].contains(x) && #[trigger] fronts[s].contains(y)
                ==> !dominates(m, y, x),
        forall|t: int, x: usize|
            0 < t < fronts.len() && #[trigger] fronts[t].contains(x) ==> exists|y: usize|
                #[trigger] fronts[t - 1].contains(y) && dominates(m, y, x),
{
    assert forall|x: usize| x < m.n() implies #[trigger] in_some_front(fronts, x) by {
        lemma_fronts_partition(m, fronts, x);
    }
    assert forall|x: usize, t1: int, t2: int|
        0 <= t1 < fronts.len() && 0 <= t2 < fronts.len() && #[trigger] fronts[t1].contains(x)
            && #[trigger] fronts[t2].contains(x) implies t1 == t2 by {
        lemma_left_after_shrinks(m, 0, t1 as nat);
        assert(front(m, t1 as nat).contains(x));
        assert(x < m.n());
        lemma_fronts_partition(m, fronts, x);
    }
    assert forall|t: int, s: int, x: usize, y: usize|
        0 <= t <= s < fronts.len() && #[trigger] fronts[t].contains(x) && #[trigger] fronts[s].contains(y)
            implies !dominates(m, y, x) by {
        if t == s {
            lemma_front_antichain(m, fronts, t, y, x);
        } else {
            lemma_earlier_front_undominated(m, fronts, t, s, x, y);
        }
    }
    assert forall|t: int, x: usize| 0 < t < fronts.len() && #[trigger] fronts[t].contains(x) implies exists|y: usize|
        #[trigger] fronts[t - 1].contains(y) && dominates(m, y, x) by {
        lemma_later_front_dominated(m, fronts, t, x);
    }
}

} // verus!
