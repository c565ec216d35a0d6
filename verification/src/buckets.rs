//! Adaptive latency buckets: neighbouring whole-second latencies are merged
//! into ranges until each range holds enough observations to be worth a row.

use crate::arrange::{arrange, is_arrangement, Precedence};
use crate::frequency::{enumerates, NumericTable};
use vstd::multiset::*;
use vstd::prelude::*;

verus! {

/// The key under which an observation without a value is counted. It is
/// larger than every real value.
pub const NO_VALUE: usize = usize::MAX;

/// A range of values `lo <= v < hi` with the number of observations in it.
#[derive(Clone, Copy, Debug, PartialEq, Eq)]
pub struct Bucket {
    pub lo: usize,
    pub hi: usize,
    pub count: usize,
}

/// The buckets of one table: the ranges in ascending order, and apart from
/// them the number of observations that had no value.
#[derive(Clone, Debug, PartialEq, Eq)]
pub struct Histogram {
    pub buckets: Vec<Bucket>,
    pub unknown: usize,
}

/// How many of the observations in `counts` have a value `v` with
/// `lo <= v < hi`.
pub open spec fn observations(counts: Multiset<usize>, lo: int, hi: int) -> nat
    decreases hi - lo,
{
    if hi <= lo {
        0
    } else {
        observations(counts, lo, hi - 1) + counts.count((hi - 1) as usize)
    }
}

/// The sum of the counts of the buckets in `buckets`.
pub open spec fn total_count(buckets: Seq<Bucket>) -> nat
    decreases buckets.len(),
{
    if buckets.len() == 0 {
        0
    } else {
        total_count(buckets.drop_last()) + buckets.last().count as nat
    }
}

/// A bucket as the sweep forms it: it starts and ends on a value that was
/// observed, counts exactly the observations in its range, and ends on the
/// first value at which its count could reach the threshold.
pub open spec fn is_bucket_of(counts: Multiset<usize>, threshold: usize, b: Bucket) -> bool {
    &&& b.lo < b.hi
    &&& counts.count(b.lo) > 0
    &&& counts.count((b.hi - 1) as usize) > 0
    &&& b.count == observations(counts, b.lo as int, b.hi as int)
    &&& (b.hi - 1 == b.lo || observations(counts, b.lo as int, b.hi - 1) < threshold)
}

/// Whether `buckets` is the bucketing of the real values in `counts` under
/// `threshold`: ascending ranges that together hold every observation below
/// `NO_VALUE`, each range formed as `is_bucket_of` says, and every one but
/// possibly the last holding at least `threshold` observations.
pub open spec fn is_bucketing(counts: Multiset<usize>, threshold: usize, buckets: Seq<Bucket>) -> bool {
    &&& forall|i: int| 0 <= i < buckets.len() ==> is_bucket_of(counts, threshold, #[trigger] buckets[i])
    &&& forall|i: int| 0 <= i < buckets.len() - 1 ==> (#[trigger] buckets[i]).count >= threshold
    &&& forall|i: int|
        0 <= i < buckets.len() - 1 ==> (#[trigger] buckets[i]).hi <= buckets[i + 1].lo
            && observations(counts, buckets[i].hi as int, buckets[i + 1].lo as int) == 0
    &&& buckets.len() > 0 ==> observations(counts, 0, buckets[0].lo as int) == 0
    &&& observations(counts, upper_edge(buckets), NO_VALUE as int) == 0
}

/// Where the last of `buckets` ends; zero where there is none.
pub open spec fn upper_edge(buckets: Seq<Bucket>) -> int {
    if buckets.len() == 0 {
        0
    } else {
        buckets.last().hi as int
    }
}

/// A range can be counted in two parts.
pub proof fn lemma_observations_split(counts: Multiset<usize>, lo: int, mid: int, hi: int)
    requires
        lo <= mid <= hi,
    ensures
        observations(counts, lo, hi) == observations(counts, lo, mid) + observations(
            counts,
            mid,
            hi,
        ),
    decreases hi - mid,
{
    if mid < hi {
        lemma_observations_split(counts, lo, mid, hi - 1);
    }
}

/// A range in which no value was observed counts nothing.
pub proof fn lemma_observations_none(counts: Multiset<usize>, lo: int, hi: int)
    requires
        0 <= lo,
        hi <= usize::MAX + 1,
        forall|v: usize| lo <= v < hi ==> counts.count(v) == 0,
    ensures
        observations(counts, lo, hi) == 0,
    decreases hi - lo,
{
    if lo < hi {
        lemma_observations_none(counts, lo, hi - 1);
    }
}

proof fn lemma_observations_remove(counts: Multiset<usize>, v: usize, lo: int, hi: int)
    requires
        0 <= lo,
        hi <= usize::MAX + 1,
        counts.count(v) > 0,
    ensures
        observations(counts, lo, hi) == observations(counts.remove(v), lo, hi) + if lo <= v
            < hi {
            1nat
        } else {
            0nat
        },
    decreases hi - lo,
{
    broadcast use group_multiset_axioms;

    if lo < hi {
        lemma_observations_remove(counts, v, lo, hi - 1);
    }
}

/// No range holds more observations than there are.
pub proof fn lemma_observations_bounded(counts: Multiset<usize>, lo: int, hi: int)
    requires
        0 <= lo,
        hi <= usize::MAX + 1,
    ensures
        observations(counts, lo, hi) <= counts.len(),
    decreases counts.len(),
{
    broadcast use group_multiset_axioms;

    if counts.len() == 0 {
        lemma_observations_none(counts, lo, hi);
    } else {
        let v = counts.choose();
        assert(Multiset::singleton(v).subset_of(counts));
        lemma_observations_remove(counts, v, lo, hi);
        lemma_observations_bounded(counts.remove(v), lo, hi);
    }
}

/// The buckets count every observation that has a value exactly once: their
/// counts add up to the number of observations below `NO_VALUE`.
pub proof fn lemma_buckets_count_every_observation(
    counts: Multiset<usize>,
    threshold: usize,
    buckets: Seq<Bucket>,
)
    requires
        is_bucketing(counts, threshold, buckets),
    ensures
        total_count(buckets) == observations(counts, 0, NO_VALUE as int),
{
    lemma_prefix_counts(counts, threshold, buckets, buckets.len() as int);
    assert(buckets.take(buckets.len() as int) =~= buckets);
    if buckets.len() > 0 {
        assert(buckets.last().hi <= NO_VALUE);
    }
    lemma_observations_split(counts, 0, upper_edge(buckets), NO_VALUE as int);
}

proof fn lemma_prefix_counts(
    counts: Multiset<usize>,
    threshold: usize,
    buckets: Seq<Bucket>,
    n: int,
)
    requires
        is_bucketing(counts, threshold, buckets),
        0 <= n <= buckets.len(),
    ensures
        total_count(buckets.take(n)) == observations(counts, 0, upper_edge(buckets.take(n))),
    decreases n,
{
    if n > 0 {
        lemma_prefix_counts(counts, threshold, buckets, n - 1);
        let b = buckets[n - 1];
        assert(buckets.take(n).drop_last() =~= buckets.take(n - 1));
        assert(buckets.take(n).last() == b);
        assert(is_bucket_of(counts, threshold, b));
        if n == 1 {
            lemma_observations_split(counts, 0, b.lo as int, b.hi as int);
        } else {
            let a = buckets[n - 2];
            assert(buckets.take(n - 1).last() == a);
            assert(a.hi <= buckets[n - 2 + 1].lo);
            lemma_observations_split(counts, 0, a.hi as int, b.lo as int);
            lemma_observations_split(counts, 0, b.lo as int, b.hi as int);
        }
    }
}

/// In a range that counts nothing, no value was observed.
pub proof fn lemma_observations_zero(counts: Multiset<usize>, lo: int, hi: int, v: usize)
    requires
        observations(counts, lo, hi) == 0,
        lo <= v < hi,
    ensures
        counts.count(v) == 0,
    decreases hi - lo,
{
    if v < hi - 1 {
        lemma_observations_zero(counts, lo, hi - 1, v);
    }
}

/// Of two buckets that start on the same value, one that ends before the
/// other holds fewer observations than the threshold, and the other ends on a
/// value that was observed after it.
proof fn lemma_same_end(counts: Multiset<usize>, threshold: usize, a: Bucket, b: Bucket)
    requires
        is_bucket_of(counts, threshold, a),
        is_bucket_of(counts, threshold, b),
        a.lo == b.lo,
        a.hi < b.hi,
    ensures
        a.count < threshold,
        counts.count((b.hi - 1) as usize) > 0,
        a.hi <= b.hi - 1 < NO_VALUE,
{
    lemma_observations_split(counts, a.lo as int, a.hi as int, b.hi - 1);
}

/// The bucket at place `k` is the same in any two bucketings of the same
/// observations under the same threshold.
proof fn lemma_bucketing_agrees(
    counts: Multiset<usize>,
    threshold: usize,
    a: Seq<Bucket>,
    b: Seq<Bucket>,
    k: int,
)
    requires
        is_bucketing(counts, threshold, a),
        is_bucketing(counts, threshold, b),
        0 <= k < a.len(),
        k < b.len(),
    ensures
        a[k] == b[k],
    decreases k,
{
    let x = a[k];
    let y = b[k];
    assert(is_bucket_of(counts, threshold, x));
    assert(is_bucket_of(counts, threshold, y));
    let floor = if k == 0 {
        0
    } else {
        a[k - 1].hi as int
    };
    if k > 0 {
        lemma_bucketing_agrees(counts, threshold, a, b, k - 1);
        assert(a[k - 1].hi <= a[k - 1 + 1].lo);
        assert(b[k - 1].hi <= b[k - 1 + 1].lo);
    }
    assert(observations(counts, floor, x.lo as int) == 0);
    assert(observations(counts, floor, y.lo as int) == 0);
    if x.lo < y.lo {
        lemma_observations_zero(counts, floor, y.lo as int, x.lo);
    }
    if y.lo < x.lo {
        lemma_observations_zero(counts, floor, x.lo as int, y.lo);
    }
    if x.hi < y.hi {
        lemma_same_end(counts, threshold, x, y);
        assert(k == a.len() - 1);
        lemma_observations_zero(counts, x.hi as int, NO_VALUE as int, (y.hi - 1) as usize);
    }
    if y.hi < x.hi {
        lemma_same_end(counts, threshold, y, x);
        assert(k == b.len() - 1);
        lemma_observations_zero(counts, y.hi as int, NO_VALUE as int, (x.hi - 1) as usize);
    }
}

/// One bucketing cannot go on where another has ended.
proof fn lemma_bucketing_no_longer(
    counts: Multiset<usize>,
    threshold: usize,
    a: Seq<Bucket>,
    b: Seq<Bucket>,
)
    requires
        is_bucketing(counts, threshold, a),
        is_bucketing(counts, threshold, b),
    ensures
        b.len() <= a.len(),
{
    if a.len() < b.len() {
        let k = a.len() as int;
        let next = b[k];
        assert(is_bucket_of(counts, threshold, next));
        if k > 0 {
            lemma_bucketing_agrees(counts, threshold, a, b, k - 1);
            assert(b[k - 1].hi <= b[k - 1 + 1].lo);
        }
        lemma_observations_zero(counts, upper_edge(a), NO_VALUE as int, next.lo);
    }
}

/// Observations have one bucketing only under a threshold: `is_bucketing`
/// leaves nothing about the buckets open.
pub proof fn lemma_bucketing_unique(
    counts: Multiset<usize>,
    threshold: usize,
    a: Seq<Bucket>,
    b: Seq<Bucket>,
)
    requires
        is_bucketing(counts, threshold, a),
        is_bucketing(counts, threshold, b),
    ensures
        a == b,
{
    lemma_bucketing_no_longer(counts, threshold, a, b);
    lemma_bucketing_no_longer(counts, threshold, b, a);
    assert forall|k: int| 0 <= k < a.len() implies a[k] == b[k] by {
        lemma_bucketing_agrees(counts, threshold, a, b, k);
    }
    assert(a =~= b);
}

/// The (value, count) pairs of a table, ordered by value.
pub struct ValueOrder<'a> {
    pub pairs: &'a Vec<(usize, usize)>,
}

impl<'a> Precedence for ValueOrder<'a> {
    open spec fn extent(&self) -> nat {
        self.pairs@.len()
    }

    open spec fn precedes(&self, a: int, b: int) -> bool {
        self.pairs@[a].0 < self.pairs@[b].0 || (self.pairs@[a].0 == self.pairs@[b].0 && a < b)
    }

    proof fn lemma_strict_total(&self, a: int, b: int, c: int) {
    }

    fn size(&self) -> (n: usize) {
        self.pairs.len()
    }

    fn comes_first(&self, a: usize, b: usize) -> (first: bool) {
        let x = self.pairs[a].0;
        let y = self.pairs[b].0;
        x < y || (x == y && a < b)
    }
}

/// What the sweep has established when every value below `edge` is dealt
/// with: `done` holds the closed buckets, and the observations from `start`
/// up to `edge`, `running` of them, wait in a bucket that is still open.
spec fn sweep_state(
    counts: Multiset<usize>,
    threshold: usize,
    done: Seq<Bucket>,
    edge: int,
    open: bool,
    start: usize,
    running: usize,
) -> bool {
    &&& 0 <= upper_edge(done) <= edge <= NO_VALUE
    &&& forall|i: int| 0 <= i < done.len() ==> is_bucket_of(counts, threshold, #[trigger] done[i])
    &&& forall|i: int| 0 <= i < done.len() ==> (#[trigger] done[i]).count >= threshold
    &&& forall|i: int|
        0 <= i < done.len() - 1 ==> (#[trigger] done[i]).hi <= done[i + 1].lo && observations(
            counts,
            done[i].hi as int,
            done[i + 1].lo as int,
        ) == 0
    &&& done.len() > 0 ==> observations(counts, 0, done[0].lo as int) == 0
    &&& if open {
        &&& upper_edge(done) <= start < edge
        &&& observations(counts, upper_edge(done), start as int) == 0
        &&& counts.count(start) > 0
        &&& counts.count((edge - 1) as usize) > 0
        &&& running == observations(counts, start as int, edge)
        &&& running < threshold
    } else {
        &&& running == 0
        &&& observations(counts, upper_edge(done), edge) == 0
    }
}

/// Buckets the values counted in `table`.
///
/// The values below `NO_VALUE` are swept in ascending order. A bucket starts
/// at the first value not yet in a bucket and takes in the values that
/// follow until it holds at least `min_threshold` observations; what is left
/// at the end forms a last bucket, however few observations it holds. The
/// observations counted under `NO_VALUE` are reported apart, as `unknown`.
pub fn bucketize(table: &NumericTable, min_threshold: usize) -> (histogram: Histogram)
    ensures
        is_bucketing(table@, min_threshold, histogram.buckets@),
        histogram.unknown == table@.count(NO_VALUE),
{
    // no bucket can hold more than the table's total, which fits a `usize`
    let total = table.total();
    let pairs = table.iterate();
    let by_value = ValueOrder { pairs: &pairs };
    let positions = arrange(&by_value);
    let n = positions.len();
    let ghost counts = table@;

    let mut buckets: Vec<Bucket> = Vec::new();
    let mut open = false;
    let mut start: usize = 0;
    let mut running: usize = 0;
    let mut last: usize = 0;
    let ghost mut edge: int = 0;
    let mut t: usize = 0;
    proof {
        assert(is_arrangement(&by_value, positions@));
        assert forall|i: int, j: int| 0 <= i < j < n implies pairs@[positions@[i] as int].0
            < pairs@[positions@[j] as int].0 by {
            assert(by_value.precedes(positions@[i] as int, positions@[j] as int));
        }
    }
    while t < n
        invariant
            t <= n,
            n == positions@.len(),
            n == pairs@.len(),
            counts.len() == total,
            enumerates(pairs@, counts),
            forall|i: int| 0 <= i < n ==> (#[trigger] positions@[i]) < n,
            forall|x: usize| x < n ==> #[trigger] positions@.contains(x),
            forall|i: int, j: int|
                0 <= i < j < n ==> pairs@[(#[trigger] positions@[i]) as int].0 < pairs@[(
                #[trigger] positions@[j]) as int].0,
            forall|i: int|
                0 <= i < t ==> pairs@[(#[trigger] positions@[i]) as int].0 < edge
                    || pairs@[positions@[i] as int].0 == NO_VALUE,
            forall|i: int| t <= i < n ==> edge <= pairs@[(#[trigger] positions@[i]) as int].0,
            sweep_state(counts, min_threshold, buckets@, edge, open, start, running),
            open ==> last + 1 == edge,
        decreases n - t,
    {
        let (value, count) = pairs[positions[t]];
        if value < NO_VALUE {
            proof {
                assert(count > 0 && counts.count(value) == count);
                // nothing was observed between what is dealt with and `value`
                assert forall|v: usize| edge <= v < value implies counts.count(v) == 0 by {
                    if counts.count(v) > 0 {
                        let i = choose|i: int| 0 <= i < pairs@.len() && (#[trigger] pairs@[i]).0 == v;
                        assert(positions@.contains(i as usize));
                        let m = choose|m: int| 0 <= m < positions@.len() && positions@[m] == i;
                        if m < t {
                            assert(pairs@[positions@[m] as int].0 < edge || pairs@[positions@[m] as int].0 == NO_VALUE);
                        } else if m > t {
                            assert(pairs@[positions@[t as int] as int].0 < pairs@[positions@[m] as int].0);
                        }
                    }
                }
                assert(edge <= pairs@[positions@[t as int] as int].0);
                lemma_observations_none(counts, edge, value as int);
                lemma_observations_bounded(counts, start as int, value + 1);
                lemma_observations_bounded(counts, value as int, value + 1);
                assert(observations(counts, value as int, value as int) == 0);
                if open {
                    lemma_observations_split(counts, start as int, edge, value as int);
                    lemma_observations_split(counts, start as int, value as int, value + 1);
                } else {
                    lemma_observations_split(counts, upper_edge(buckets@), edge, value as int);
                }
            }
            if !open {
                start = value;
                open = true;
            }
            running = running + count;
            last = value;
            proof {
                edge = value + 1;
            }
            if running >= min_threshold {
                let ghost before = buckets@;
                buckets.push(Bucket { lo: start, hi: value + 1, count: running });
                open = false;
                running = 0;
                proof {
                    let done = buckets@;
                    assert(done.last() == Bucket { lo: start, hi: (value + 1) as usize, count: done.last().count });
                    assert forall|i: int| 0 <= i < done.len() implies is_bucket_of(
                        counts,
                        min_threshold,
                        #[trigger] done[i],
                    ) && done[i].count >= min_threshold by {
                        if i < before.len() {
                            assert(done[i] == before[i]);
                        }
                    }
                    assert forall|i: int| 0 <= i < done.len() - 1 implies (#[trigger] done[i]).hi
                        <= done[i + 1].lo && observations(
                        counts,
                        done[i].hi as int,
                        done[i + 1].lo as int,
                    ) == 0 by {
                        assert(done[i] == before[i]);
                        if i + 1 < before.len() {
                            assert(done[i + 1] == before[i + 1]);
                        }
                    }
                    if before.len() > 0 {
                        assert(done[0] == before[0]);
                    }
                    assert(observations(counts, edge, edge) == 0);
                }
            }
        }
        t = t + 1;
    }
    if open {
        let ghost before = buckets@;
        buckets.push(Bucket { lo: start, hi: last + 1, count: running });
        proof {
            let done = buckets@;
            assert forall|i: int| 0 <= i < done.len() implies is_bucket_of(
                counts,
                min_threshold,
                #[trigger] done[i],
            ) by {
                if i < before.len() {
                    assert(done[i] == before[i]);
                }
            }
            assert forall|i: int| 0 <= i < done.len() - 1 implies (#[trigger] done[i]).count
                >= min_threshold by {
                assert(done[i] == before[i]);
            }
            assert forall|i: int| 0 <= i < done.len() - 1 implies (#[trigger] done[i]).hi
                <= done[i + 1].lo && observations(
                counts,
                done[i].hi as int,
                done[i + 1].lo as int,
            ) == 0 by {
                assert(done[i] == before[i]);
                if i + 1 < before.len() {
                    assert(done[i + 1] == before[i + 1]);
                }
            }
            if before.len() > 0 {
                assert(done[0] == before[0]);
            }
        }
    }
    proof {
        // nothing with a value was observed past the last value swept
        assert forall|v: usize| edge <= v < NO_VALUE implies counts.count(v) == 0 by {
            if counts.count(v) > 0 {
                let i = choose|i: int| 0 <= i < pairs@.len() && (#[trigger] pairs@[i]).0 == v;
                assert(positions@.contains(i as usize));
                let m = choose|m: int| 0 <= m < positions@.len() && positions@[m] == i;
                assert(pairs@[positions@[m] as int].0 < edge || pairs@[positions@[m] as int].0 == NO_VALUE);
            }
        }
        lemma_observations_none(counts, edge, NO_VALUE as int);
        lemma_observations_split(counts, upper_edge(buckets@), edge, NO_VALUE as int);
    }
    Histogram { buckets, unknown: table.get(NO_VALUE) }
}

} // verus!
