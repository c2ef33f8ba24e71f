//! Putting things in order of their scores.

use crate::binary64::{Binary64, SIGN};
use vstd::prelude::*;

verus! {

/// The place of a score on the number line. A NaN, which has none, is put below all
/// numbers.
pub open spec fn place(x: Binary64) -> int {
    if x.is_nan() {
        -(SIGN as int)
    } else {
        x.rank()
    }
}

/// Does what has the score `keys[a]` come before what has the score `keys[b]`? The
/// higher score comes first; of two equal ones, the one that stood first.
pub open spec fn before(keys: Seq<Binary64>, a: int, b: int) -> bool {
    ||| place(keys[a]) > place(keys[b])
    ||| place(keys[a]) == place(keys[b]) && a < b
}

/// Does `order` hold the positions from `lo` up to `hi`, each once, in the order of
/// their scores?
pub open spec fn is_ranking_of(keys: Seq<Binary64>, lo: int, hi: int, order: Seq<int>) -> bool {
    &&& order.len() == hi - lo
    &&& forall|i: int| 0 <= i < order.len() ==> lo <= #[trigger] order[i] < hi
    &&& forall|k: int| lo <= k < hi ==> #[trigger] order.contains(k)
    &&& forall|i: int, j: int|
        0 <= i < j < order.len() ==> before(keys, #[trigger] order[i], #[trigger] order[j])
}

/// Does `order` hold the positions of all scores, each once, from the highest score
/// to the lowest, with equal ones in the order in which they stood?
pub open spec fn is_ranking(keys: Seq<Binary64>, order: Seq<int>) -> bool {
    is_ranking_of(keys, 0, keys.len() as int, order)
}

/// The positions of the scores, from the highest to the lowest.
pub open spec fn ranking(keys: Seq<Binary64>) -> Seq<int> {
    choose|order: Seq<int>| is_ranking(keys, order)
}

/// The positions of the `k` highest scores, from the highest down.
pub open spec fn top(keys: Seq<Binary64>, k: nat) -> Seq<int> {
    if k < keys.len() {
        ranking(keys).take(k as int)
    } else {
        ranking(keys)
    }
}

/// Positions as integers.
pub open spec fn positions(order: Seq<usize>) -> Seq<int> {
    order.map_values(|i: usize| i as int)
}

/// Scores can be put in order in one way only.
pub proof fn ranking_is_unique(keys: Seq<Binary64>, lo: int, hi: int, a: Seq<int>, b: Seq<int>)
    requires
        is_ranking_of(keys, lo, hi, a),
        is_ranking_of(keys, lo, hi, b),
    ensures
        a == b,
{
    if a != b {
        assert(a.len() == b.len());
        let n: int = first_difference(a, b, 0);
        // Each of the two has, further down, what the other has here.
        let i: int = choose|i: int| 0 <= i < a.len() && a[i] == b[n];
        assert(a.contains(b[n]));
        let j: int = choose|j: int| 0 <= j < b.len() && b[j] == a[n];
        assert(b.contains(a[n]));
        if i < n {
            assert(b[i] == b[n]);
            assert(before(keys, b[i], b[n]));
        }
        if j < n {
            assert(a[j] == a[n]);
            assert(before(keys, a[j], a[n]));
        }
        assert(before(keys, a[n], a[i]));
        assert(before(keys, b[n], b[j]));
    }
}

proof fn first_difference(a: Seq<int>, b: Seq<int>, from: int) -> (n: int)
    requires
        a.len() == b.len(),
        a != b,
        0 <= from <= a.len(),
        forall|i: int| 0 <= i < from ==> a[i] == b[i],
    ensures
        0 <= n < a.len(),
        a[n] != b[n],
        forall|i: int| 0 <= i < n ==> a[i] == b[i],
    decreases a.len() - from,
{
    if from == a.len() {
        assert(a =~= b);
        0
    } else if a[from] != b[from] {
        from
    } else {
        first_difference(a, b, from + 1)
    }
}

/// Scores can always be put in order.
pub proof fn ranking_exists(keys: Seq<Binary64>)
    ensures
        is_ranking(keys, ranking(keys)),
{
    let order: Seq<int> = ranking_up_to(keys, keys.len() as int);
    assert(is_ranking(keys, order));
}

proof fn ranking_up_to(keys: Seq<Binary64>, n: int) -> (order: Seq<int>)
    requires
        0 <= n <= keys.len(),
    ensures
        is_ranking_of(keys, 0, n, order),
    decreases n,
{
    if n == 0 {
        Seq::<int>::empty()
    } else {
        let rest: Seq<int> = ranking_up_to(keys, n - 1);
        let p: int = place_for(keys, rest, n - 1, 0);
        let order: Seq<int> = rest.insert(p, n - 1);
        assert forall|k: int| 0 <= k < n implies #[trigger] order.contains(k) by {
            if k == n - 1 {
                assert(order[p] == k);
            } else {
                assert(rest.contains(k));
                let i: int = choose|i: int| 0 <= i < rest.len() && rest[i] == k;
                if i < p {
                    assert(order[i] == k);
                } else {
                    assert(order[i + 1] == k);
                }
            }
        }
        assert forall|i: int, j: int| 0 <= i < j < order.len() implies before(
            keys,
            #[trigger] order[i],
            #[trigger] order[j],
        ) by {
            let x: int = if i < p {
                i
            } else {
                i - 1
            };
            let y: int = if j < p {
                j
            } else {
                j - 1
            };
            if i != p && j != p {
                assert(before(keys, rest[x], rest[y]));
            }
        }
        order
    }
}

/// Where `new` goes in an order that it is not part of yet.
proof fn place_for(keys: Seq<Binary64>, order: Seq<int>, new: int, from: int) -> (p: int)
    requires
        0 <= from <= order.len(),
        forall|i: int| 0 <= i < order.len() ==> 0 <= #[trigger] order[i] < new,
        forall|i: int, j: int|
            0 <= i < j < order.len() ==> before(keys, #[trigger] order[i], #[trigger] order[j]),
        forall|i: int| 0 <= i < from ==> before(keys, #[trigger] order[i], new),
    ensures
        0 <= p <= order.len(),
        forall|i: int| 0 <= i < p ==> before(keys, #[trigger] order[i], new),
        forall|i: int| p <= i < order.len() ==> before(keys, new, #[trigger] order[i]),
    decreases order.len() - from,
{
    if from < order.len() && before(keys, order[from], new) {
        place_for(keys, order, new, from + 1)
    } else {
        if from < order.len() {
            assert(before(keys, new, order[from]));
        }
        from
    }
}

/// Each score is followed by none that is higher.
pub proof fn ranking_descends(keys: Seq<Binary64>, i: int, j: int)
    requires
        0 <= i < j < keys.len(),
    ensures
        0 <= ranking(keys)[i] < keys.len(),
        0 <= ranking(keys)[j] < keys.len(),
        !keys[ranking(keys)[i]].spec_lt(keys[ranking(keys)[j]]),
{
    ranking_exists(keys);
}

/// Does `a` come before `b`?
fn comes_before(keys: &Vec<Binary64>, a: usize, b: usize) -> (r: bool)
    requires
        a < b < keys@.len(),
    ensures
        r == before(keys@, a as int, b as int),
{
    // As `a` stood first, only a higher score puts `b` before it.
    let x: Binary64 = keys[a];
    let y: Binary64 = keys[b];
    if y.nan() {
        true
    } else if x.nan() {
        false
    } else {
        !x.lt(y)
    }
}

/// The positions from `lo` up to `hi`, in the order of their scores.
fn rank_range(keys: &Vec<Binary64>, lo: usize, hi: usize) -> (r: Vec<usize>)
    requires
        lo <= hi <= keys@.len(),
    ensures
        is_ranking_of(keys@, lo as int, hi as int, positions(r@)),
    decreases hi - lo,
{
    let mut r: Vec<usize> = Vec::new();
    if hi - lo == 0 {
        return r;
    }
    if hi - lo == 1 {
        r.push(lo);
        proof {
            assert(positions(r@)[0] == lo);
            assert(positions(r@).contains(lo as int));
        }
        return r;
    }
    let mid: usize = lo + (hi - lo) / 2;
    let a: Vec<usize> = rank_range(keys, lo, mid);
    let b: Vec<usize> = rank_range(keys, mid, hi);
    merge(keys, lo, mid, hi, &a, &b)
}

/// Two neighbouring ranges, each in order, put in order together.
fn merge(
    keys: &Vec<Binary64>,
    lo: usize,
    mid: usize,
    hi: usize,
    a: &Vec<usize>,
    b: &Vec<usize>,
) -> (r: Vec<usize>)
    requires
        lo <= mid <= hi <= keys@.len(),
        is_ranking_of(keys@, lo as int, mid as int, positions(a@)),
        is_ranking_of(keys@, mid as int, hi as int, positions(b@)),
    ensures
        is_ranking_of(keys@, lo as int, hi as int, positions(r@)),
{
    let na: usize = a.len();
    let nb: usize = b.len();
    let mut r: Vec<usize> = Vec::new();
    let mut i: usize = 0;
    let mut j: usize = 0;
    let ghost pa: Seq<int> = positions(a@);
    let ghost pb: Seq<int> = positions(b@);
    while i < na || j < nb
        invariant
            i <= na == a@.len(),
            j <= nb == b@.len(),
            lo <= mid <= hi <= keys@.len(),
            pa == positions(a@),
            pb == positions(b@),
            is_ranking_of(keys@, lo as int, mid as int, pa),
            is_ranking_of(keys@, mid as int, hi as int, pb),
            r@.len() == i + j,
            forall|k: int| 0 <= k < r@.len() ==> lo <= #[trigger] positions(r@)[k] < hi,
            forall|k: int| 0 <= k < i ==> positions(r@).contains(#[trigger] pa[k]),
            forall|k: int| 0 <= k < j ==> positions(r@).contains(#[trigger] pb[k]),
            forall|x: int, y: int|
                0 <= x < y < r@.len() ==> before(keys@, #[trigger] positions(r@)[x], #[trigger] positions(r@)[y]),
            forall|x: int, y: int|
                0 <= x < r@.len() && i <= y < na ==> before(keys@, #[trigger] positions(r@)[x], #[trigger] pa[y]),
            forall|x: int, y: int|
                0 <= x < r@.len() && j <= y < nb ==> before(keys@, #[trigger] positions(r@)[x], #[trigger] pb[y]),
        decreases na - i + nb - j,
    {
        let left: bool = if i == na {
            false
        } else if j == nb {
            true
        } else {
            assert(lo <= pa[i as int] < mid);
            assert(mid <= pb[j as int] < hi);
            comes_before(keys, a[i], b[j])
        };
        let ghost old_r: Seq<int> = positions(r@);
        let ghost next: int = if left {
            pa[i as int]
        } else {
            pb[j as int]
        };
        let v: usize = if left {
            a[i]
        } else {
            b[j]
        };
        r.push(v);
        proof {
            assert(v == next);
            assert(positions(r@) =~= old_r.push(next));
            assert(positions(r@)[old_r.len() as int] == next);
            if left {
                assert(lo <= pa[i as int] < mid);
            } else {
                assert(mid <= pb[j as int] < hi);
            }
            assert forall|k: int| 0 <= k < old_r.len() implies positions(r@).contains(old_r[k]) by {
                assert(positions(r@)[k] == old_r[k]);
            }
            assert forall|y: int| (if left { i + 1 } else { i as int }) <= y < na implies before(
                keys@,
                next,
                #[trigger] pa[y],
            ) by {
                if left {
                    assert(before(keys@, pa[i as int], pa[y]));
                } else {
                    assert(before(keys@, pb[j as int], pa[i as int]));
                    assert(i < y ==> before(keys@, pa[i as int], pa[y]));
                }
            }
            assert forall|y: int| (if left { j as int } else { j + 1 }) <= y < nb implies before(
                keys@,
                next,
                #[trigger] pb[y],
            ) by {
                if left {
                    assert(before(keys@, pa[i as int], pb[j as int]));
                    assert(j < y ==> before(keys@, pb[j as int], pb[y]));
                } else {
                    assert(before(keys@, pb[j as int], pb[y]));
                }
            }
        }
        if left {
            i = i + 1;
        } else {
            j = j + 1;
        }
        proof {
            assert forall|k: int| 0 <= k < i implies positions(r@).contains(#[trigger] pa[k]) by {
                if k < i - 1 || !left {
                    assert(old_r.contains(pa[k]));
                    let q: int = choose|q: int| 0 <= q < old_r.len() && old_r[q] == pa[k];
                    assert(positions(r@)[q] == pa[k]);
                }
            }
            assert forall|k: int| 0 <= k < j implies positions(r@).contains(#[trigger] pb[k]) by {
                if k < j - 1 || left {
                    assert(old_r.contains(pb[k]));
                    let q: int = choose|q: int| 0 <= q < old_r.len() && old_r[q] == pb[k];
                    assert(positions(r@)[q] == pb[k]);
                }
            }
        }
    }
    proof {
        assert forall|k: int| lo <= k < hi implies #[trigger] positions(r@).contains(k) by {
            if k < mid {
                assert(pa.contains(k));
                let q: int = choose|q: int| 0 <= q < pa.len() && pa[q] == k;
                assert(positions(r@).contains(pa[q]));
            } else {
                assert(pb.contains(k));
                let q: int = choose|q: int| 0 <= q < pb.len() && pb[q] == k;
                assert(positions(r@).contains(pb[q]));
            }
        }
    }
    r
}

/// The positions of the scores, from the highest to the lowest, with equal ones in
/// the order in which they stood.
pub fn rank(keys: &Vec<Binary64>) -> (r: Vec<usize>)
    ensures
        positions(r@) == ranking(keys@),
        is_ranking(keys@, positions(r@)),
{
    let r: Vec<usize> = rank_range(keys, 0, keys.len());
    proof {
        ranking_exists(keys@);
        ranking_is_unique(keys@, 0, keys@.len() as int, positions(r@), ranking(keys@));
    }
    r
}

/// The positions of the `k` highest scores, from the highest down.
pub fn rank_top(keys: &Vec<Binary64>, k: usize) -> (r: Vec<usize>)
    ensures
        positions(r@) == top(keys@, k as nat),
        r@.len() == (if k < keys@.len() {
            k as nat
        } else {
            keys@.len()
        }),
        forall|i: int| 0 <= i < r@.len() ==> #[trigger] r@[i] < keys@.len(),
{
    let mut r: Vec<usize> = rank(keys);
    proof {
        assert forall|i: int| 0 <= i < r@.len() implies #[trigger] r@[i] < keys@.len() by {
            assert(positions(r@)[i] < keys@.len());
        }
    }
    let ghost all: Seq<usize> = r@;
    if k < r.len() {
        r.truncate(k);
        assert(positions(r@) =~= positions(all).take(k as int));
    }
    r
}

/// Are these the positions of the `k` highest scores: as many as there are, up to `k`, each
/// once, none below one that comes later or is left out, and of equal ones those that stood
/// first, in their order? A NaN comes after all numbers.
pub open spec fn are_highest(keys: Seq<Binary64>, k: nat, at: Seq<int>) -> bool {
    &&& at.len() == (if k < keys.len() {
        k
    } else {
        keys.len()
    })
    &&& forall|i: int| 0 <= i < at.len() ==> 0 <= #[trigger] at[i] < keys.len()
    &&& forall|i: int, j: int| 0 <= i < j < at.len() ==> at[i] != at[j]
    &&& forall|i: int, j: int|
        0 <= i < j < at.len() ==> comes_no_later(keys, #[trigger] at[i], #[trigger] at[j])
    &&& forall|i: int, m: int|
        0 <= i < at.len() && 0 <= m < keys.len() && !at.contains(m) ==> #[trigger] comes_no_later(
            keys,
            at[i],
            m,
        )
}

/// Is the score at `a` above the one at `b`, or equal to it and stands before it?
pub open spec fn comes_no_later(keys: Seq<Binary64>, a: int, b: int) -> bool {
    ||| keys[b].spec_lt(keys[a])
    ||| !keys[a].is_nan() && keys[b].is_nan()
    ||| keys[a].is_nan() && keys[b].is_nan() && a < b
    ||| keys[a].spec_le(keys[b]) && keys[b].spec_le(keys[a]) && a < b
}

/// The highest scores are taken, from the highest down.
pub proof fn the_highest_are_taken(keys: Seq<Binary64>, k: nat)
    ensures
        are_highest(keys, k, top(keys, k)),
        are_highest(keys, keys.len(), ranking(keys)),
{
    ranking_exists(keys);
    let order: Seq<int> = ranking(keys);
    let at: Seq<int> = top(keys, k);
    assert forall|i: int, j: int| 0 <= i < j < order.len() implies comes_no_later(
        keys,
        #[trigger] order[i],
        #[trigger] order[j],
    ) by {
        assert(before(keys, order[i], order[j]));
    }
    assert forall|i: int, j: int| 0 <= i < j < order.len() implies order[i] != order[j] by {
        assert(before(keys, order[i], order[j]));
    }
    assert forall|i: int, m: int|
        0 <= i < at.len() && 0 <= m < keys.len() && !at.contains(m) implies #[trigger] comes_no_later(
        keys,
        at[i],
        m,
    ) by {
        assert(order.contains(m));
        let q: int = choose|q: int| 0 <= q < order.len() && order[q] == m;
        assert(order[i] == at[i]);
        if q < at.len() {
            assert(at[q] == m);
        }
        assert(comes_no_later(keys, order[i], order[q]));
    }
    assert forall|i: int, j: int| 0 <= i < j < at.len() implies comes_no_later(
        keys,
        #[trigger] at[i],
        #[trigger] at[j],
    ) by {
        assert(order[i] == at[i] && order[j] == at[j]);
    }
    assert forall|i: int| 0 <= i < at.len() implies 0 <= #[trigger] at[i] < keys.len() by {
        assert(order[i] == at[i]);
    }
}

/// Positions stay what they are.
pub proof fn positions_are_the_same(order: Seq<usize>, i: int)
    requires
        0 <= i < order.len(),
    ensures
        positions(order).len() == order.len(),
        positions(order)[i] == order[i],
{
}

} // verus!
