//! The model of code selection: how a sorted sample is cut into clusters of
//! equal values, and which clusters the stepping pass and its calibration
//! promote to exact codes.
use vstd::prelude::*;

use crate::order::{equiv, le, lt, lawful_order, lemma_lt_le};

verus! {

/// A maximal run of equal values in a sorted sample: the index of its first
/// element and its length.
#[derive(Copy, Clone)]
pub struct Cluster {
    pub start: usize,
    pub count: usize,
}

/// Every element sorts before or equal to every later one.
pub open spec fn sorted<T: Ord>(s: Seq<T>) -> bool {
    forall|i: int, j: int| 0 <= i < j < s.len() ==> #[trigger] le(s[i], s[j])
}

/// Every element sorts strictly before every later one.
pub open spec fn strictly_sorted<T: Ord>(s: Seq<T>) -> bool {
    forall|i: int, j: int| 0 <= i < j < s.len() ==> #[trigger] lt(s[i], s[j])
}

/// `clu` cuts `s` into its maximal runs of equal values, in order.
pub open spec fn is_clustering<T: Ord>(s: Seq<T>, clu: Seq<Cluster>) -> bool {
    &&& (s.len() == 0 <==> clu.len() == 0)
    &&& clu.len() > 0 ==> clu[0].start == 0
    &&& clu.len() > 0 ==> clu.last().start + clu.last().count == s.len()
    &&& forall|k: int| 0 <= k < clu.len() ==> #[trigger] clu[k].count >= 1
    &&& forall|k: int|
        0 <= k < clu.len() - 1 ==> #[trigger] clu[k + 1].start == clu[k].start + clu[k].count
    &&& forall|k: int, i: int|
        0 <= k < clu.len() && clu[k].start <= i < clu[k].start + clu[k].count ==> equiv(
            s[clu[k].start as int],
            #[trigger] s[i],
        ) && #[trigger] clu[k].count > 0
    &&& forall|k: int|
        0 <= k < clu.len() - 1 ==> !equiv(
            s[clu[k].start as int],
            #[trigger] s[clu[k + 1].start as int],
        )
}

/// How many clusters from index `i` on a window takes in, with `sum` counted
/// so far: it grows while the sum stays below `step`.
pub open spec fn window_len(clu: Seq<Cluster>, step: int, i: int, sum: int) -> nat
    decreases clu.len() - i,
{
    if i < clu.len() && sum < step {
        1 + window_len(clu, step, i + 1, sum + clu[i].count)
    } else {
        0
    }
}

/// The index in `[first, end)` of the first cluster of largest count
/// (`first` where the range is empty).
pub open spec fn first_max(clu: Seq<Cluster>, first: int, end: int) -> int
    decreases end - first,
{
    if end <= first + 1 {
        first
    } else {
        let m = first_max(clu, first, end - 1);
        if clu[m].count < clu[end - 1].count {
            end - 1
        } else {
            m
        }
    }
}

/// The clusters one stepping pass promotes, from cluster `first` on: each
/// window yields its first cluster of largest count, and the cluster just
/// after a window is passed over.
pub open spec fn picks(clu: Seq<Cluster>, step: int, first: int) -> Seq<int>
    decreases clu.len() - first,
{
    if 0 <= first < clu.len() {
        let end = first + window_len(clu, step, first, 0);
        if end < clu.len() {
            seq![first_max(clu, first, end)] + picks(clu, step, end + 1)
        } else {
            seq![first_max(clu, first, end)]
        }
    } else {
        seq![]
    }
}

/// The step scaled down by the ratio `got / target`, in fixed point at 10000.
pub open spec fn scaled_step(step: int, got: int, target: int) -> int {
    step * (got * 10000 / target) / 10000
}

/// The calibration rounds: stop at `target` picks, cut an excess down to
/// `target`, else retry with a smaller step and keep the retry unless it
/// overshoots.
pub open spec fn calibrate(
    clu: Seq<Cluster>,
    target: int,
    step: int,
    cur: Seq<int>,
    rounds: nat,
) -> Seq<int>
    decreases rounds,
{
    if rounds == 0 || cur.len() == target {
        cur
    } else if cur.len() > target {
        cur.take(target)
    } else {
        let next_step = scaled_step(step, cur.len() as int, target);
        let next = picks(clu, next_step, 0);
        if next.len() <= target {
            calibrate(clu, target, next_step, next, (rounds - 1) as nat)
        } else {
            cur
        }
    }
}

/// The clusters promoted for a sample of `size` values and `target` exact
/// codes: a first pass at step `size / target`, then up to nine rounds.
pub open spec fn chosen(clu: Seq<Cluster>, size: int, target: int) -> Seq<int> {
    let step = size / target;
    calibrate(clu, target, step, picks(clu, step, 0), 9)
}

/// The first values of the clusters at indices `p`.
pub open spec fn cluster_values<T>(s: Seq<T>, clu: Seq<Cluster>, p: Seq<int>) -> Seq<T> {
    p.map_values(|k: int| s[clu[k].start as int])
}

/// The indices are strictly increasing and lie in `[lo, n)`.
pub open spec fn increasing_in(p: Seq<int>, lo: int, n: int) -> bool {
    &&& forall|a: int, b: int| 0 <= a < b < p.len() ==> #[trigger] p[a] < #[trigger] p[b]
    &&& forall|a: int| 0 <= a < p.len() ==> lo <= #[trigger] p[a] < n
}

pub proof fn lemma_window_len_bound(clu: Seq<Cluster>, step: int, i: int, sum: int)
    requires
        i <= clu.len(),
    ensures
        i + window_len(clu, step, i, sum) <= clu.len(),
    decreases clu.len() - i,
{
    if i < clu.len() && sum < step {
        lemma_window_len_bound(clu, step, i + 1, sum + clu[i].count);
    }
}

pub proof fn lemma_first_max_range(clu: Seq<Cluster>, first: int, end: int)
    ensures
        first <= first_max(clu, first, end),
        end > first ==> first_max(clu, first, end) < end,
    decreases end - first,
{
    if end > first + 1 {
        lemma_first_max_range(clu, first, end - 1);
    }
}

pub proof fn lemma_picks_increasing(clu: Seq<Cluster>, step: int, first: int)
    requires
        0 <= first,
    ensures
        increasing_in(picks(clu, step, first), first, clu.len() as int),
        first < clu.len() ==> picks(clu, step, first).len() >= 1,
    decreases clu.len() - first,
{
    if first < clu.len() {
        let end = first + window_len(clu, step, first, 0);
        lemma_window_len_bound(clu, step, first, 0);
        lemma_first_max_range(clu, first, end);
        if end < clu.len() {
            lemma_picks_increasing(clu, step, end + 1);
        }
        let head = first_max(clu, first, end);
        assert(head <= end);
        let rest = if end < clu.len() { picks(clu, step, end + 1) } else { seq![] };
        let p = picks(clu, step, first);
        assert(p == seq![head] + rest);
        assert forall|a: int, b: int| 0 <= a < b < p.len() implies p[a] < p[b] by {
            if a > 0 {
                assert(p[a] == rest[a - 1]);
            }
            assert(p[b] == rest[b - 1]);
        }
        assert forall|a: int| 0 <= a < p.len() implies first <= #[trigger] p[a] < clu.len() by {
            if a > 0 {
                assert(p[a] == rest[a - 1]);
            }
        }
    }
}

pub proof fn lemma_calibrate(
    clu: Seq<Cluster>,
    target: int,
    step: int,
    cur: Seq<int>,
    rounds: nat,
)
    requires
        target >= 1,
        clu.len() > 0,
        cur.len() >= 1,
        increasing_in(cur, 0, clu.len() as int),
        rounds >= 1 || cur.len() <= target,
    ensures
        increasing_in(calibrate(clu, target, step, cur, rounds), 0, clu.len() as int),
        1 <= calibrate(clu, target, step, cur, rounds).len() <= target,
    decreases rounds,
{
    if rounds == 0 || cur.len() == target {
    } else if cur.len() > target {
        let t = cur.take(target);
        assert forall|a: int, b: int| 0 <= a < b < t.len() implies t[a] < t[b] by {
            assert(t[a] == cur[a] && t[b] == cur[b]);
        }
        assert forall|a: int| 0 <= a < t.len() implies 0 <= #[trigger] t[a] < clu.len() by {
            assert(t[a] == cur[a]);
        }
    } else {
        let next_step = scaled_step(step, cur.len() as int, target);
        let next = picks(clu, next_step, 0);
        if next.len() <= target {
            lemma_picks_increasing(clu, next_step, 0);
            lemma_calibrate(clu, target, next_step, next, (rounds - 1) as nat);
        }
    }
}

pub proof fn lemma_chosen(clu: Seq<Cluster>, size: int, target: int)
    requires
        target >= 1,
        clu.len() > 0,
    ensures
        increasing_in(chosen(clu, size, target), 0, clu.len() as int),
        1 <= chosen(clu, size, target).len() <= target,
{
    let step = size / target;
    lemma_picks_increasing(clu, step, 0);
    lemma_calibrate(clu, target, step, picks(clu, step, 0), 9);
}

/// The first values of the clusters at increasing indices `p` are strictly
/// increasing.
pub proof fn lemma_cluster_values_increase<T: Ord>(s: Seq<T>, clu: Seq<Cluster>, p: Seq<int>)
    requires
        lawful_order::<T>(),
        sorted(s),
        is_clustering(s, clu),
        increasing_in(p, 0, clu.len() as int),
    ensures
        strictly_sorted(cluster_values(s, clu, p)),
{
    let v = cluster_values(s, clu, p);
    assert forall|a: int, b: int| 0 <= a < b < v.len() implies lt(v[a], v[b]) by {
        let ka = p[a];
        let kb = p[b];
        assert(ka < kb);
        assert(0 <= ka < clu.len() && 0 <= kb < clu.len());
        lemma_cluster_starts(s, clu, kb, kb);
        assert(clu[(kb - 1) + 1].start == clu[kb - 1].start + clu[kb - 1].count);
        assert(!equiv(s[clu[kb - 1].start as int], s[clu[(kb - 1) + 1].start as int]));
        assert(clu[kb - 1].count >= 1);
        lemma_cluster_starts(s, clu, ka, kb - 1);
        let x = s[clu[ka].start as int];
        let y = s[clu[kb - 1].start as int];
        let z = s[clu[kb].start as int];
        assert(!equiv(y, z));
        assert(clu[kb - 1].start < clu[kb].start);
        assert(le(y, z));
        assert(lt(y, z));
        if ka < kb - 1 {
            assert(le(x, y));
        } else {
            crate::order::lemma_equiv_symmetric(x, y);
            assert(le(x, y));
        }
        lemma_lt_le(x, y, z);
    }
}

/// Cluster starts increase with the cluster index and stay within the sample.
pub proof fn lemma_cluster_starts<T: Ord>(s: Seq<T>, clu: Seq<Cluster>, a: int, b: int)
    requires
        is_clustering(s, clu),
        0 <= a <= b < clu.len(),
    ensures
        clu[a].start <= clu[b].start,
        a < b ==> clu[a].start < clu[b].start,
        clu[b].start + clu[b].count <= s.len(),
    decreases clu.len() - a,
{
    if a < clu.len() - 1 {
        lemma_cluster_starts(s, clu, a + 1, if b > a { b } else { a + 1 });
        assert(clu[a + 1].start == clu[a].start + clu[a].count);
        assert(clu[a].count >= 1);
    }
}

} // verus!

verus! {

/// A cluster starts no earlier than its index.
pub proof fn lemma_start_at_least<T: Ord>(s: Seq<T>, clu: Seq<Cluster>, k: int)
    requires
        is_clustering(s, clu),
        0 <= k < clu.len(),
    ensures
        k <= clu[k].start,
    decreases k,
{
    if k > 0 {
        lemma_start_at_least(s, clu, k - 1);
        assert(clu[(k - 1) + 1].start == clu[k - 1].start + clu[k - 1].count);
        assert(clu[k - 1].count >= 1);
    }
}

/// There are no more clusters than values.
pub proof fn lemma_cluster_count<T: Ord>(s: Seq<T>, clu: Seq<Cluster>)
    requires
        is_clustering(s, clu),
    ensures
        clu.len() <= s.len(),
{
    if clu.len() > 0 {
        let last = clu.len() - 1;
        lemma_start_at_least(s, clu, last);
        assert(clu[last].count >= 1);
    }
}

} // verus!
