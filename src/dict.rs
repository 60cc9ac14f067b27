//! The dictionary: construction from a sample, and encoding of queries.
use core::cmp::Ordering;
use vstd::prelude::*;

use crate::code::{Code, Mode};
use crate::order::{equiv, lawful_order, lemma_lt_trans, lt};
use crate::select::{
    calibrate, chosen, cluster_values, first_max, increasing_in, is_clustering, lemma_chosen,
    lemma_cluster_count, lemma_cluster_starts, lemma_cluster_values_increase,
    lemma_picks_increasing, picks, scaled_step, sorted, strictly_sorted, window_len, Cluster,
};

verus! {

/// What a value type of a [`Dict`] must offer: a total order, cloning, and a
/// default value that stands in for an empty sample.
pub trait ValReq: Ord + Clone + Default {

}

impl<T> ValReq for T where T: Ord + Clone + Default {

}

/// A dictionary over values of type `T`: it maps each value to a [`Code`]
/// with [`Dict::encode`].
pub struct Dict<T: ValReq> {
    /// The mode the dictionary was built in.
    pub mode: Mode,
    /// The values that have exact codes, in strictly increasing order. The
    /// value at index `i` has exact code `2 * (i + 1)`; the odd code just
    /// below it stands for the open interval below it.
    pub codes: Vec<T>,
}

/// A sequence of indices as integers.
pub open spec fn as_ints(v: Seq<usize>) -> Seq<int> {
    v.map_values(|x: usize| x as int)
}

/// How many of `s` sort strictly before `q`.
pub open spec fn count_less<T: Ord>(s: Seq<T>, q: T) -> nat
    decreases s.len(),
{
    if s.len() == 0 {
        0
    } else {
        count_less(s.drop_last(), q) + if lt(s.last(), q) {
            1nat
        } else {
            0nat
        }
    }
}

/// The code of `q` among the exact values `s`: `2 * (i + 1)` where `q` equals
/// `s[i]`, else `2 * i + 1` where `i` values of `s` sort before `q`.
pub open spec fn code_of<T: Ord>(s: Seq<T>, q: T) -> int {
    let i = count_less(s, q) as int;
    if i < s.len() && equiv(s[i], q) {
        2 * i + 2
    } else {
        2 * i + 1
    }
}

/// Which clusters become exact codes: all of them where they fit, else the
/// calibrated stepping selection.
pub open spec fn selection(mode: Mode, size: int, clu: Seq<Cluster>) -> Seq<int> {
    if clu.len() <= mode.exact_count() {
        Seq::new(clu.len(), |k: int| k)
    } else {
        chosen(clu, size, mode.exact_count() as int)
    }
}

/// `codes` is what construction yields for a non-empty `sample`: the sample
/// sorted, cut into clusters, and the first values of the selected clusters.
pub open spec fn built_from<T: Ord>(mode: Mode, sample: Seq<T>, codes: Seq<T>) -> bool {
    exists|s: Seq<T>, clu: Seq<Cluster>|
        {
            &&& #[trigger] s.to_multiset() == sample.to_multiset()
            &&& sorted(s)
            &&& #[trigger] is_clustering(s, clu)
            &&& codes == cluster_values(s, clu, selection(mode, s.len() as int, clu))
        }
}

pub proof fn lemma_count_less<T: Ord>(s: Seq<T>, q: T)
    requires
        lawful_order::<T>(),
        strictly_sorted(s),
    ensures
        count_less(s, q) <= s.len(),
        forall|j: int| 0 <= j < count_less(s, q) ==> #[trigger] lt(s[j], q),
        forall|j: int| count_less(s, q) <= j < s.len() ==> !#[trigger] lt(s[j], q),
    decreases s.len(),
{
    if s.len() > 0 {
        let t = s.drop_last();
        assert forall|i: int, j: int| 0 <= i < j < t.len() implies #[trigger] lt(t[i], t[j]) by {
            assert(lt(s[i], s[j]));
        }
        lemma_count_less(t, q);
        let n = s.len() - 1;
        if lt(s.last(), q) {
            assert forall|j: int| 0 <= j < n implies #[trigger] lt(t[j], q) by {
                assert(lt(s[j], s[n]));
                lemma_lt_trans(s[j], s[n], q);
            }
            assert forall|j: int| 0 <= j < count_less(s, q) implies #[trigger] lt(s[j], q) by {
                if j < n {
                    assert(s[j] == t[j]);
                }
            }
        } else {
            assert forall|j: int| 0 <= j < count_less(s, q) implies #[trigger] lt(s[j], q) by {
                assert(s[j] == t[j]);
            }
            assert forall|j: int| count_less(s, q) <= j < s.len() implies !#[trigger] lt(s[j], q) by {
                if j < n {
                    assert(s[j] == t[j]);
                }
            }
        }
    }
}

/// Relies on `slice::sort_unstable`: it reorders the elements so that each
/// sorts before or equal to every later one by `Ord`. It may panic where
/// `Ord` is not a total order, which the precondition rules out.
#[verifier::external_body]
fn sort_values<T: Ord>(v: &mut Vec<T>)
    requires
        lawful_order::<T>(),
    ensures
        final(v)@.to_multiset() == old(v)@.to_multiset(),
        sorted(final(v)@),
{
    v.sort_unstable();
}

/// Moves the values at strictly increasing positions `at` out of `values`.
fn take_values_at<T>(values: Vec<T>, at: &Vec<usize>) -> (r: Vec<T>)
    requires
        forall|a: int, b: int| 0 <= a < b < at@.len() ==> #[trigger] at@[a] < #[trigger] at@[b],
        forall|a: int| 0 <= a < at@.len() ==> #[trigger] at@[a] < values@.len(),
    ensures
        r@.len() == at@.len(),
        forall|k: int| 0 <= k < at@.len() ==> r@[k] == values@[at@[k] as int],
{
    let ghost orig = values@;
    let mut rest = values;
    let mut rev: Vec<T> = Vec::new();
    let mut j: usize = at.len();
    while rest.len() > 0
        invariant
            rest@ == orig.take(rest@.len() as int),
            rest@.len() <= orig.len(),
            j <= at@.len(),
            forall|a: int, b: int| 0 <= a < b < at@.len() ==> #[trigger] at@[a] < #[trigger] at@[b],
            forall|k: int| 0 <= k < j ==> #[trigger] at@[k] < rest@.len(),
            rev@.len() == at@.len() - j,
            forall|m: int|
                0 <= m < rev@.len() ==> #[trigger] rev@[m] == orig[at@[at@.len() - 1 - m] as int],
        decreases rest@.len(),
    {
        let v = rest.pop().unwrap();
        let pos = rest.len();
        assert(v == orig[pos as int]);
        if j > 0 && at[j - 1] == pos {
            rev.push(v);
            j = j - 1;
        } else if j > 0 {
            assert(at@[j - 1] < pos);
        }
        assert forall|k: int| 0 <= k < j implies #[trigger] at@[k] < rest@.len() by {
            if k < j - 1 {
                assert(at@[k] < at@[j - 1]);
            }
        }
    }
    assert(j == 0) by {
        if j > 0 {
            assert(at@[j - 1] < rest@.len());
        }
    }
    let mut out: Vec<T> = Vec::new();
    while rev.len() > 0
        invariant
            j == 0,
            out@.len() + rev@.len() == at@.len(),
            forall|m: int|
                0 <= m < rev@.len() ==> #[trigger] rev@[m] == orig[at@[at@.len() - 1 - m] as int],
            forall|k: int| 0 <= k < out@.len() ==> #[trigger] out@[k] == orig[at@[k] as int],
        decreases rev@.len(),
    {
        let v = rev.pop().unwrap();
        assert(v == orig[at@[out@.len() as int] as int]);
        out.push(v);
    }
    out
}

impl<T: ValReq> Dict<T> {
    /// The dictionary is well formed: between one and the mode's count of
    /// exact values, in strictly increasing order.
    pub open spec fn wf(&self) -> bool {
        &&& 1 <= self.codes@.len() <= self.mode.exact_count()
        &&& strictly_sorted(self.codes@)
    }

    /// Cuts a sorted sample into its runs of equal values.
    fn clusters(sorted_sample: &Vec<T>) -> (clu: Vec<Cluster>)
        requires
            lawful_order::<T>(),
            sorted(sorted_sample@),
        ensures
            is_clustering(sorted_sample@, clu@),
    {
        let ghost s = sorted_sample@;
        let mut clu: Vec<Cluster> = Vec::new();
        let n = sorted_sample.len();
        if n > 0 {
            let mut curr: usize = 0;
            let mut count: usize = 0;
            let mut i: usize = 0;
            while i < n
                invariant
                    lawful_order::<T>(),
                    sorted(s),
                    s == sorted_sample@,
                    n == s.len(),
                    curr <= i <= n,
                    curr < n,
                    curr + count == i,
                    i > 0 ==> count >= 1,
                    forall|j: int| curr <= j < i ==> #[trigger] equiv(s[curr as int], s[j]),
                    clu@.len() == 0 ==> curr == 0,
                    clu@.len() > 0 ==> clu@[0].start == 0,
                    clu@.len() > 0 ==> clu@.last().start + clu@.last().count == curr,
                    clu@.len() > 0 ==> !equiv(s[clu@.last().start as int], s[curr as int]),
                    forall|k: int| 0 <= k < clu@.len() ==> #[trigger] clu@[k].count >= 1,
                    forall|k: int|
                        0 <= k < clu@.len() - 1 ==> #[trigger] clu@[k + 1].start == clu@[k].start
                            + clu@[k].count,
                    forall|k: int, j: int|
                        0 <= k < clu@.len() && clu@[k].start <= j < clu@[k].start + clu@[k].count
                            ==> equiv(s[clu@[k].start as int], #[trigger] s[j])
                            && #[trigger] clu@[k].count > 0,
                    forall|k: int|
                        0 <= k < clu@.len() - 1 ==> !equiv(
                            s[clu@[k].start as int],
                            #[trigger] s[clu@[k + 1].start as int],
                        ),
                decreases n - i,
            {
                match sorted_sample[curr].cmp(&sorted_sample[i]) {
                    Ordering::Equal => {
                        count += 1;
                    },
                    _ => {
                        clu.push(Cluster { start: curr, count });
                        curr = i;
                        count = 1;
                    },
                }
                i += 1;
            }
            clu.push(Cluster { start: curr, count });
        }
        clu
    }

    /// One stepping pass over the clusters: each window of clusters whose
    /// counts reach `codestep` yields the index of its first cluster of
    /// largest count; the cluster after each window is passed over.
    fn assign_codes_with_step(codestep: usize, clu: &Vec<Cluster>) -> (codes: Vec<usize>)
        ensures
            as_ints(codes@) == picks(clu@, codestep as int, 0),
    {
        let ghost step = codestep as int;
        let mut codes: Vec<usize> = Vec::new();
        let mut first_idx: usize = 0;
        while first_idx < clu.len()
            invariant
                step == codestep as int,
                first_idx <= clu@.len(),
                as_ints(codes@) + picks(clu@, step, first_idx as int) == picks(clu@, step, 0),
            decreases clu@.len() - first_idx,
        {
            let mut last_idx: usize = first_idx;
            let mut idx_with_max_val: usize = first_idx;
            // wide enough that one count added to a sum below the step fits
            let mut cluster_count_sum: u128 = 0;
            while last_idx < clu.len() && cluster_count_sum < codestep as u128
                invariant
                    step == codestep as int,
                    first_idx < clu@.len(),
                    first_idx <= last_idx <= clu@.len(),
                    idx_with_max_val == first_max(clu@, first_idx as int, last_idx as int),
                    idx_with_max_val < clu@.len(),
                    cluster_count_sum <= 2 * (usize::MAX as u128),
                    window_len(clu@, step, first_idx as int, 0) == (last_idx - first_idx)
                        + window_len(clu@, step, last_idx as int, cluster_count_sum as int),
                decreases clu@.len() - last_idx,
            {
                assert(window_len(clu@, step, last_idx as int, cluster_count_sum as int) == 1
                    + window_len(
                    clu@,
                    step,
                    last_idx + 1,
                    cluster_count_sum + clu@[last_idx as int].count,
                ));
                if clu[idx_with_max_val].count < clu[last_idx].count {
                    idx_with_max_val = last_idx;
                }
                cluster_count_sum += clu[last_idx].count as u128;
                last_idx += 1;
            }
            assert(window_len(clu@, step, last_idx as int, cluster_count_sum as int) == 0);
            let ghost old_codes = codes@;
            codes.push(idx_with_max_val);
            proof {
                let end = last_idx as int;
                assert(end == first_idx + window_len(clu@, step, first_idx as int, 0));
                let rest = if end < clu@.len() {
                    picks(clu@, step, end + 1)
                } else {
                    seq![]
                };
                assert(picks(clu@, step, first_idx as int) == seq![idx_with_max_val as int] + rest);
                assert(as_ints(codes@) =~= as_ints(old_codes).push(idx_with_max_val as int));
                assert(as_ints(codes@) + rest =~= as_ints(old_codes) + (seq![
                    idx_with_max_val as int,
                ] + rest));
            }
            first_idx =
            if last_idx < clu.len() {
                last_idx + 1
            } else {
                clu.len()
            };
        }
        assert(picks(clu@, step, first_idx as int) == Seq::<int>::empty());
        assert(as_ints(codes@) =~= as_ints(codes@) + Seq::<int>::empty());
        codes
    }

    /// Repeats the stepping pass with a shrinking step, up to nine more
    /// times, to come close to `ncodes` picks without going over.
    fn assign_codes_with_minimal_step(samplesize: usize, ncodes: usize, clu: &Vec<Cluster>) -> (codes:
        Vec<usize>)
        requires
            samplesize != 0,
            ncodes != 0,
            ncodes < samplesize,
            clu@.len() > 0,
        ensures
            as_ints(codes@) == chosen(clu@, samplesize as int, ncodes as int),
    {
        let ghost target = ncodes as int;
        let ghost goal = chosen(clu@, samplesize as int, target);
        let mut codestep = samplesize / ncodes;
        let mut codes = Self::assign_codes_with_step(codestep, clu);
        proof {
            lemma_picks_increasing(clu@, codestep as int, 0);
        }
        let mut round: usize = 0;
        let mut done = false;
        while round < 9 && !done
            invariant
                target == ncodes as int,
                target >= 1,
                clu@.len() > 0,
                goal == chosen(clu@, samplesize as int, target),
                round <= 9,
                codes@.len() >= 1,
                increasing_in(as_ints(codes@), 0, clu@.len() as int),
                done ==> as_ints(codes@) == goal,
                !done ==> calibrate(clu@, target, codestep as int, as_ints(codes@), (9 - round) as nat)
                    == goal,
            decreases 9 - round + if done {
                0int
            } else {
                1int
            },
        {
            if codes.len() == ncodes {
                done = true;
            } else if codes.len() > ncodes {
                let ghost before = codes@;
                codes.truncate(ncodes);
                assert(codes@ =~= before.take(target));
                assert(as_ints(codes@) =~= as_ints(before).take(target));
                done = true;
            } else {
                let bias: u128 = (codes.len() as u128 * 10000) / ncodes as u128;
                let ghost old_step = codestep as int;
                assert(bias <= 10000) by (nonlinear_arith)
                    requires
                        bias as int == (codes@.len() as int * 10000) / (ncodes as int),
                        codes@.len() < ncodes,
                ;
                assert(codestep as int * bias as int <= 18446744073709551615 * 10000)
                    by (nonlinear_arith)
                    requires
                        codestep <= usize::MAX,
                        bias <= 10000,
                ;
                let wide: u128 = (codestep as u128 * bias) / 10000;
                assert(wide <= codestep) by (nonlinear_arith)
                    requires
                        wide as int == (codestep as int * bias as int) / 10000,
                        bias <= 10000,
                ;
                codestep = wide as usize;
                assert(codestep as int == scaled_step(old_step, codes@.len() as int, target));
                let next_codes = Self::assign_codes_with_step(codestep, clu);
                proof {
                    lemma_picks_increasing(clu@, codestep as int, 0);
                }
                if next_codes.len() <= ncodes {
                    codes = next_codes;
                } else {
                    done = true;
                }
                round += 1;
            }
        }
        codes
    }

    /// Looks up the code of `query`: the exact code `2 * (i + 1)` where it
    /// equals `codes[i]`, else the odd code of the open interval it lies in.
    pub fn encode(&self, query: &T) -> (r: Code)
        requires
            lawful_order::<T>(),
            self.wf(),
        ensures
            r.0 == code_of(self.codes@, *query),
            1 <= r.0 <= self.mode.top_code(),
    {
        let ghost s = self.codes@;
        let ghost q = *query;
        let n = self.codes.len();
        let mut lo: usize = 0;
        let mut hi: usize = n;
        while lo < hi
            invariant
                q == *query,
                s == self.codes@,
                n == s.len(),
                lo <= hi <= n,
                strictly_sorted(s),
                lawful_order::<T>(),
                forall|j: int| 0 <= j < lo ==> #[trigger] lt(s[j], q),
                forall|j: int| hi <= j < n ==> !#[trigger] lt(s[j], q),
            decreases hi - lo,
        {
            let mid = lo + (hi - lo) / 2;
            match self.codes[mid].cmp(query) {
                Ordering::Less => {
                    assert(lt(s[mid as int], q));
                    assert forall|j: int| 0 <= j < mid + 1 implies #[trigger] lt(s[j], q) by {
                        if j < mid {
                            assert(lt(s[j], s[mid as int]));
                            lemma_lt_trans(s[j], s[mid as int], q);
                        }
                    }
                    lo = mid + 1;
                },
                _ => {
                    assert(!lt(s[mid as int], q));
                    assert forall|j: int| mid <= j < n implies !#[trigger] lt(s[j], q) by {
                        if j > mid && lt(s[j], q) {
                            assert(lt(s[mid as int], s[j]));
                            lemma_lt_trans(s[mid as int], s[j], q);
                        }
                    }
                    hi = mid;
                },
            }
        }
        proof {
            lemma_count_less(s, q);
            let k = count_less(s, q) as int;
            if k < lo {
                assert(lt(s[k], q));
            }
            if k > lo {
                assert(lt(s[lo as int], q));
            }
            assert(k == lo);
        }
        let exact = lo < n && match self.codes[lo].cmp(query) {
            Ordering::Equal => true,
            _ => false,
        };
        let code: usize = if exact {
            2 * (lo + 1)
        } else {
            2 * lo + 1
        };
        Code(code as u16)
    }

    /// Builds a dictionary in `mode` over a sample of values. The sample is
    /// sorted and cut into runs of equal values; where the runs fit in the
    /// mode, each gets an exact code, else a calibrated stepping pass
    /// promotes the most frequent value of each of a series of bins.
    pub fn new(mode: Mode, sample: Vec<T>) -> (r: Self)
        requires
            lawful_order::<T>(),
        ensures
            r.mode == mode,
            r.wf(),
            sample@.len() == 0 ==> r.codes@.len() == 1 && call_ensures(T::default, (), r.codes@[0]),
            sample@.len() > 0 ==> built_from(mode, sample@, r.codes@),
    {
        let mut sample = sample;
        if sample.len() == 0 {
            let d = T::default();
            let codes = vec![d];
            return Self { mode, codes };
        }
        let ghost unsorted = sample@;
        sort_values(&mut sample);
        let ghost s = sample@;
        proof {
            assert(s.len() == unsorted.len()) by {
                assert(s.to_multiset().len() == unsorted.to_multiset().len());
                s.to_multiset_ensures();
                unsorted.to_multiset_ensures();
            }
        }
        let clu = Self::clusters(&sample);
        let ncodes = mode.num_exact_codes();
        let ghost sel = selection(mode, s.len() as int, clu@);
        proof {
            lemma_cluster_count(s, clu@);
        }
        let mut picked: Vec<usize> = Vec::new();
        if clu.len() <= ncodes {
            let mut k: usize = 0;
            while k < clu.len()
                invariant
                    k <= clu@.len(),
                    picked@.len() == k,
                    forall|i: int| 0 <= i < k ==> #[trigger] picked@[i] == i,
                decreases clu@.len() - k,
            {
                picked.push(k);
                k += 1;
            }
            assert(as_ints(picked@) =~= sel);
        } else {
            picked = Self::assign_codes_with_minimal_step(sample.len(), ncodes, &clu);
        }
        proof {
            if clu@.len() > mode.exact_count() {
                lemma_chosen(clu@, s.len() as int, mode.exact_count() as int);
            }
            assert(as_ints(picked@) == sel);
            assert(increasing_in(sel, 0, clu@.len() as int));
        }
        let mut starts: Vec<usize> = Vec::new();
        let mut k: usize = 0;
        while k < picked.len()
            invariant
                k <= picked@.len(),
                as_ints(picked@) == sel,
                increasing_in(sel, 0, clu@.len() as int),
                is_clustering(s, clu@),
                starts@.len() == k,
                forall|m: int| 0 <= m < k ==> #[trigger] starts@[m] == clu@[sel[m]].start,
            decreases picked@.len() - k,
        {
            assert(sel[k as int] == picked@[k as int]);
            starts.push(clu[picked[k]].start);
            k += 1;
        }
        proof {
            assert forall|a: int, b: int| 0 <= a < b < starts@.len() implies #[trigger] starts@[a]
                < #[trigger] starts@[b] by {
                lemma_cluster_starts(s, clu@, sel[a], sel[b]);
            }
            assert forall|a: int| 0 <= a < starts@.len() implies #[trigger] starts@[a]
                < sample@.len() by {
                lemma_cluster_starts(s, clu@, sel[a], sel[a]);
            }
        }
        let codes = take_values_at(sample, &starts);
        proof {
            assert(codes@ =~= cluster_values(s, clu@, sel));
            lemma_cluster_values_increase(s, clu@, sel);
            assert(is_clustering(s, clu@));
        }
        Self { mode, codes }
    }
}

} // verus!
