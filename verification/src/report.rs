//! The report: each table's rows in display order, cut to the number of rows
//! asked for.

use crate::arrange::{arrange, counting};
use crate::buckets::{Bucket, Histogram};
use crate::default_map::text_pairs;
use crate::entry::none_marker;
use crate::labels::{decimal, decimal_width, padded, padded_text};
use crate::order::{
    lemma_row_precedes_strict_total, row_before, row_precedes, RowOrder, SortOrder,
};
use vstd::multiset::*;
use vstd::prelude::*;
use vstd::relations::*;
use vstd::seq_lib::*;
use vstd::set_lib::*;

verus! {

/// Whether `positions` lists the positions of `rows` in display order: every
/// position once, each before all those that it precedes.
pub open spec fn is_ranking(
    rows: Seq<(Seq<char>, usize)>,
    order: SortOrder,
    positions: Seq<usize>,
) -> bool {
    &&& positions.len() == rows.len()
    &&& forall|i: int| 0 <= i < positions.len() ==> (#[trigger] positions[i]) < rows.len()
    &&& forall|i: int, j: int|
        0 <= i < j < positions.len() ==> row_precedes(
            rows,
            order,
            (#[trigger] positions[i]) as int,
            (#[trigger] positions[j]) as int,
        )
    &&& forall|x: usize| x < rows.len() ==> #[trigger] positions.contains(x)
}

/// The positions of `rows` in display order.
pub open spec fn ranking(rows: Seq<(Seq<char>, usize)>, order: SortOrder) -> Seq<usize> {
    choose|positions: Seq<usize>| is_ranking(rows, order, positions)
}

/// The rows in display order: under `ByValue` the largest count first, under
/// `ByKey` in dictionary order of the keys, and rows that tie in the order
/// in which `rows` holds them.
pub open spec fn ranked(rows: Seq<(Seq<char>, usize)>, order: SortOrder) -> Seq<(Seq<char>, usize)> {
    Seq::new(rows.len(), |i: int| rows[ranking(rows, order)[i] as int])
}

/// How many rows are shown of `available` when at most `limit` are asked for.
pub open spec fn shown(limit: usize, available: nat) -> nat {
    if limit < available {
        limit as nat
    } else {
        available
    }
}

/// Whether position `a` is listed no later than position `b`.
spec fn no_later(rows: Seq<(Seq<char>, usize)>, order: SortOrder) -> spec_fn(usize, usize) -> bool {
    |a: usize, b: usize| !row_precedes(rows, order, b as int, a as int)
}

/// Being listed no later is a total order on positions.
proof fn lemma_no_later_is_total(rows: Seq<(Seq<char>, usize)>, order: SortOrder)
    ensures
        total_ordering(no_later(rows, order)),
{
    let leq = no_later(rows, order);
    assert(reflexive(leq)) by {
        assert forall|a: usize| #[trigger] leq(a, a) by {
            lemma_row_precedes_strict_total(rows, order, a as int, a as int, a as int);
        }
    }
    assert(antisymmetric(leq)) by {
        assert forall|a: usize, b: usize| #[trigger] leq(a, b) && #[trigger] leq(b, a) implies a
            == b by {
            lemma_row_precedes_strict_total(rows, order, a as int, b as int, a as int);
        }
    }
    assert(strongly_connected(leq)) by {
        assert forall|a: usize, b: usize| #[trigger] leq(a, b) || #[trigger] leq(b, a) by {
            lemma_row_precedes_strict_total(rows, order, a as int, b as int, a as int);
        }
    }
    assert(transitive(leq)) by {
        assert forall|a: usize, b: usize, c: usize| #[trigger]
            leq(a, b) && #[trigger] leq(b, c) implies leq(a, c) by {
            lemma_row_precedes_strict_total(rows, order, c as int, a as int, b as int);
            lemma_row_precedes_strict_total(rows, order, a as int, b as int, c as int);
        }
    }
}

/// Rows have a display order, whatever they are: their ranking lists their
/// positions in it.
pub proof fn lemma_ranking_exists(rows: Seq<(Seq<char>, usize)>, order: SortOrder)
    requires
        rows.len() <= usize::MAX,
    ensures
        is_ranking(rows, order, ranking(rows, order)),
{
    broadcast use group_multiset_axioms;

    let leq = no_later(rows, order);
    lemma_no_later_is_total(rows, order);
    let ids = counting(rows.len());
    let sorted = ids.sort_by(leq);
    ids.lemma_sort_by_ensures(leq);
    sorted.to_multiset_ensures();
    ids.to_multiset_ensures();
    assert(ids.no_duplicates()) by {
        assert forall|i: int, j: int| 0 <= i < ids.len() && 0 <= j < ids.len() && i != j implies ids[i]
            != ids[j] by {
            assert(ids[i] == i && ids[j] == j);
        }
    }
    ids.lemma_multiset_has_no_duplicates();
    sorted.lemma_multiset_has_no_duplicates_conv();
    assert forall|i: int| 0 <= i < sorted.len() implies (#[trigger] sorted[i]) < rows.len() by {
        assert(sorted.contains(sorted[i]));
        assert(ids.contains(sorted[i]));
    }
    assert forall|i: int, j: int| 0 <= i < j < sorted.len() implies row_precedes(
        rows,
        order,
        (#[trigger] sorted[i]) as int,
        (#[trigger] sorted[j]) as int,
    ) by {
        assert(leq(sorted[i], sorted[j]));
        lemma_row_precedes_strict_total(rows, order, sorted[i] as int, sorted[j] as int, 0);
    }
    assert forall|x: usize| x < rows.len() implies #[trigger] sorted.contains(x) by {
        assert(ids[x as int] == x);
        assert(ids.contains(x));
        assert(sorted.to_multiset().count(x) > 0);
    }
    assert(is_ranking(rows, order, sorted));
}

/// What positions that list every position of `n` once hold, as a multiset.
proof fn lemma_ranking_holds_each_once(
    rows: Seq<(Seq<char>, usize)>,
    order: SortOrder,
    positions: Seq<usize>,
)
    requires
        is_ranking(rows, order, positions),
    ensures
        forall|x: usize|
            positions.to_multiset().count(x) == if x < rows.len() {
                1nat
            } else {
                0nat
            },
{
    broadcast use group_multiset_axioms;

    positions.to_multiset_ensures();
    assert(positions.no_duplicates()) by {
        assert forall|i: int, j: int|
            0 <= i < positions.len() && 0 <= j < positions.len() && i != j implies positions[i]
            != positions[j] by {
            lemma_row_precedes_strict_total(
                rows,
                order,
                positions[i] as int,
                positions[j] as int,
                positions[i] as int,
            );
            if i < j {
                assert(row_precedes(rows, order, positions[i] as int, positions[j] as int));
            } else {
                assert(row_precedes(rows, order, positions[j] as int, positions[i] as int));
            }
        }
    }
    positions.lemma_multiset_has_no_duplicates();
    assert forall|x: usize|
        positions.to_multiset().count(x) == if x < rows.len() {
            1nat
        } else {
            0nat
        } by {
        if x < rows.len() {
            assert(positions.contains(x));
        } else if positions.to_multiset().count(x) > 0 {
            assert(positions.contains(x));
            let i = choose|i: int| 0 <= i < positions.len() && positions[i] == x;
            assert(positions[i] < rows.len());
        }
    }
}

/// Rows have one display order only: whatever lists their positions in
/// display order is their ranking.
pub proof fn lemma_ranking_unique(
    rows: Seq<(Seq<char>, usize)>,
    order: SortOrder,
    positions: Seq<usize>,
)
    requires
        is_ranking(rows, order, positions),
    ensures
        positions == ranking(rows, order),
{
    let other = ranking(rows, order);
    assert(is_ranking(rows, order, other));
    let leq = no_later(rows, order);
    lemma_no_later_is_total(rows, order);
    assert(sorted_by(positions, leq)) by {
        assert forall|i: int, j: int| 0 <= i < j < positions.len() implies #[trigger] leq(
            positions[i],
            positions[j],
        ) by {
            assert(row_precedes(rows, order, positions[i] as int, positions[j] as int));
            lemma_row_precedes_strict_total(
                rows,
                order,
                positions[i] as int,
                positions[j] as int,
                positions[i] as int,
            );
        }
    }
    assert(sorted_by(other, leq)) by {
        assert forall|i: int, j: int| 0 <= i < j < other.len() implies #[trigger] leq(
            other[i],
            other[j],
        ) by {
            assert(row_precedes(rows, order, other[i] as int, other[j] as int));
            lemma_row_precedes_strict_total(
                rows,
                order,
                other[i] as int,
                other[j] as int,
                other[i] as int,
            );
        }
    }
    lemma_ranking_holds_each_once(rows, order, positions);
    lemma_ranking_holds_each_once(rows, order, other);
    assert(positions.to_multiset() =~= other.to_multiset());
    lemma_sorted_unique(positions, other, leq);
}

/// In display order no row stands after one that it goes before.
pub proof fn lemma_ranked_in_order(rows: Seq<(Seq<char>, usize)>, order: SortOrder, i: int, j: int)
    requires
        rows.len() <= usize::MAX,
        0 <= i < j < rows.len(),
    ensures
        !row_before(order, ranked(rows, order)[j], ranked(rows, order)[i]),
{
    lemma_ranking_exists(rows, order);
    let positions = ranking(rows, order);
    assert(row_precedes(rows, order, positions[i] as int, positions[j] as int));
    lemma_row_precedes_strict_total(
        rows,
        order,
        positions[i] as int,
        positions[j] as int,
        positions[i] as int,
    );
}

/// Display order only rearranges: it shows every row as often as the table
/// holds it.
pub proof fn lemma_ranked_rearranges(rows: Seq<(Seq<char>, usize)>, order: SortOrder)
    requires
        rows.len() <= usize::MAX,
    ensures
        ranked(rows, order).to_multiset() == rows.to_multiset(),
{
    lemma_ranking_exists(rows, order);
    let positions = ranking(rows, order);
    assert(positions.no_duplicates()) by {
        assert forall|i: int, j: int|
            0 <= i < positions.len() && 0 <= j < positions.len() && i != j implies positions[i]
            != positions[j] by {
            lemma_row_precedes_strict_total(
                rows,
                order,
                positions[i] as int,
                positions[j] as int,
                positions[i] as int,
            );
            if i < j {
                assert(row_precedes(rows, order, positions[i] as int, positions[j] as int));
            } else {
                assert(row_precedes(rows, order, positions[j] as int, positions[i] as int));
            }
        }
    }
    lemma_rearranged(rows, positions);
    assert(ranked(rows, order) =~= Seq::new(rows.len(), |i: int| rows[positions[i] as int]));
}

/// Rows taken by positions that list every position once are the same rows,
/// each as often as before.
proof fn lemma_rearranged(rows: Seq<(Seq<char>, usize)>, positions: Seq<usize>)
    requires
        rows.len() <= usize::MAX,
        positions.len() == rows.len(),
        forall|i: int| 0 <= i < positions.len() ==> (#[trigger] positions[i]) < rows.len(),
        positions.no_duplicates(),
    ensures
        Seq::new(rows.len(), |i: int| rows[positions[i] as int]).to_multiset()
            == rows.to_multiset(),
    decreases rows.len(),
{
    broadcast use group_multiset_axioms;

    let taken = Seq::new(rows.len(), |i: int| rows[positions[i] as int]);
    taken.to_multiset_ensures();
    rows.to_multiset_ensures();
    if rows.len() == 0 {
        lemma_multiset_empty_len(taken.to_multiset());
        lemma_multiset_empty_len(rows.to_multiset());
    } else {
        // the place where the last row is taken
        let last = (rows.len() - 1) as usize;
        lemma_no_duplicates_covers(positions, last);
        let k = choose|k: int| 0 <= k < positions.len() && positions[k] == last;
        let fewer_rows = rows.drop_last();
        let fewer_positions = positions.remove(k);
        assert forall|i: int| 0 <= i < fewer_positions.len() implies (
        #[trigger] fewer_positions[i]) < fewer_rows.len() by {
            if i < k {
                assert(fewer_positions[i] == positions[i]);
            } else {
                assert(fewer_positions[i] == positions[i + 1]);
            }
        }
        assert(fewer_positions.no_duplicates());
        lemma_rearranged(fewer_rows, fewer_positions);
        let fewer_taken = Seq::new(
            fewer_rows.len(),
            |i: int| fewer_rows[fewer_positions[i] as int],
        );
        assert(fewer_taken =~= taken.remove(k));
        assert(rows.remove(rows.len() - 1) =~= fewer_rows);
        assert(taken[k] == rows[rows.len() - 1]);
        fewer_taken.to_multiset_ensures();
        fewer_rows.to_multiset_ensures();
        assert(taken.to_multiset() =~= taken.remove(k).to_multiset().insert(taken[k]));
        assert(rows.to_multiset() =~= fewer_rows.to_multiset().insert(rows[rows.len() - 1]));
    }
}

/// Positions below `n`, `n` of them and no two alike, miss none.
proof fn lemma_no_duplicates_covers(positions: Seq<usize>, x: usize)
    requires
        positions.len() <= usize::MAX,
        forall|i: int| 0 <= i < positions.len() ==> (#[trigger] positions[i]) < positions.len(),
        positions.no_duplicates(),
        x < positions.len(),
    ensures
        positions.contains(x),
{
    let all = Set::new(|v: usize| v < positions.len());
    let held = positions.to_set();
    lemma_usize_below_len(positions.len());
    positions.unique_seq_to_set();
    assert(held.subset_of(all)) by {
        assert forall|v: usize| held.contains(v) implies all.contains(v) by {
            let i = choose|i: int| 0 <= i < positions.len() && positions[i] == v;
            assert(positions[i] < positions.len());
        }
    }
    lemma_subset_equality(held, all);
    assert(all.contains(x));
}

/// There are `n` whole numbers below `n`.
proof fn lemma_usize_below_len(n: nat)
    requires
        n <= usize::MAX + 1,
    ensures
        Set::new(|v: usize| v < n).finite(),
        Set::new(|v: usize| v < n).len() == n,
    decreases n,
{
    let below = Set::new(|v: usize| v < n);
    if n == 0 {
        assert(below =~= Set::<usize>::empty());
    } else {
        let fewer = Set::new(|v: usize| v < n - 1);
        lemma_usize_below_len((n - 1) as nat);
        assert(below =~= fewer.insert((n - 1) as usize));
    }
}

/// A row put after others stands after theirs, text for text.
pub proof fn lemma_text_pairs_push(pairs: Seq<(String, usize)>, pair: (String, usize))
    ensures
        text_pairs(pairs.push(pair)) == text_pairs(pairs).push((pair.0@, pair.1)),
{
    assert(text_pairs(pairs.push(pair)) =~= text_pairs(pairs).push((pair.0@, pair.1)));
}

/// The rows of a table for display: `pairs` in the order that `order` names,
/// and of those the first `limit`.
pub fn render_table(pairs: &Vec<(String, usize)>, order: SortOrder, limit: usize) -> (rows: Vec<(String, usize)>)
    ensures
        rows@.len() == shown(limit, pairs@.len()),
        text_pairs(rows@) == ranked(text_pairs(pairs@), order).take(
            shown(limit, pairs@.len()) as int,
        ),
{
    let by = RowOrder { rows: pairs, order };
    let positions = arrange(&by);
    proof {
        assert(is_ranking(text_pairs(pairs@), order, positions@));
        lemma_ranking_unique(text_pairs(pairs@), order, positions@);
    }
    let count = if limit < pairs.len() {
        limit
    } else {
        pairs.len()
    };
    let mut rows: Vec<(String, usize)> = Vec::new();
    let mut i: usize = 0;
    while i < count
        invariant
            i <= count <= pairs@.len(),
            positions@.len() == pairs@.len(),
            forall|k: int| 0 <= k < positions@.len() ==> (#[trigger] positions@[k]) < pairs@.len(),
            positions@ == ranking(text_pairs(pairs@), order),
            rows@.len() == i,
            text_pairs(rows@) == ranked(text_pairs(pairs@), order).take(i as int),
        decreases count - i,
    {
        let pair = &pairs[positions[i]];
        let ghost before = rows@;
        rows.push((pair.0.clone(), pair.1));
        i = i + 1;
        proof {
            assert(rows@ == before.push(rows@.last()));
            lemma_text_pairs_push(before, rows@.last());
            let all = ranked(text_pairs(pairs@), order);
            assert(all[i - 1] == text_pairs(pairs@)[positions@[i - 1] as int]);
            assert(all.take(i as int) =~= all.take(i - 1).push(all[i - 1]));
        }
    }
    rows
}

/// The value that the last bucket ends on; zero where there is no bucket.
pub open spec fn last_value(buckets: Seq<Bucket>) -> nat {
    if buckets.len() == 0 || buckets.last().hi == 0 {
        0
    } else {
        (buckets.last().hi - 1) as nat
    }
}

/// The label of a bucket: its two bounds, each filled up to `width` columns.
pub open spec fn bucket_label(bucket: Bucket, width: nat) -> Seq<char> {
    padded(bucket.lo as nat, width) + " to "@ + padded(bucket.hi as nat, width)
}

/// The rows of a histogram: one for each bucket in its order, labelled with
/// its bounds in columns as wide as the largest value is long, and after
/// them, where any observation had no value, one row labelled `<none>`.
pub open spec fn bucket_rows(buckets: Seq<Bucket>, unknown: usize) -> Seq<(Seq<char>, usize)> {
    let width = decimal(last_value(buckets)).len();
    let ranges = Seq::new(
        buckets.len(),
        |i: int| (bucket_label(buckets[i], width), buckets[i].count),
    );
    if unknown > 0 {
        ranges.push((none_marker(), unknown))
    } else {
        ranges
    }
}

/// The rows of a histogram for display.
pub fn histogram_rows(histogram: &Histogram) -> (rows: Vec<(String, usize)>)
    ensures
        text_pairs(rows@) == bucket_rows(histogram.buckets@, histogram.unknown),
{
    let count = histogram.buckets.len();
    let last = if count == 0 || histogram.buckets[count - 1].hi == 0 {
        0
    } else {
        histogram.buckets[count - 1].hi - 1
    };
    let width = decimal_width(last);
    let mut rows: Vec<(String, usize)> = Vec::new();
    let mut i: usize = 0;
    while i < count
        invariant
            i <= count,
            count == histogram.buckets@.len(),
            width == decimal(last_value(histogram.buckets@)).len(),
            text_pairs(rows@) == bucket_rows(histogram.buckets@, 0).take(i as int),
        decreases count - i,
    {
        let bucket = histogram.buckets[i];
        let mut label = padded_text(bucket.lo, width);
        label.append(" to ");
        label.append(padded_text(bucket.hi, width).as_str());
        let ghost before = rows@;
        rows.push((label, bucket.count));
        i = i + 1;
        proof {
            assert(rows@ == before.push(rows@.last()));
            lemma_text_pairs_push(before, rows@.last());
            let all = bucket_rows(histogram.buckets@, 0);
            assert(all.take(i as int) =~= all.take(i - 1).push(all[i - 1]));
        }
    }
    if histogram.unknown > 0 {
        let ghost before = rows@;
        rows.push((String::from_str("<none>"), histogram.unknown));
        proof {
            assert(rows@ == before.push(rows@.last()));
            lemma_text_pairs_push(before, rows@.last());
            let all = bucket_rows(histogram.buckets@, 0);
            assert(all.take(count as int) =~= all);
        }
    } else {
        proof {
            let all = bucket_rows(histogram.buckets@, 0);
            assert(all.take(count as int) =~= all);
        }
    }
    rows
}

} // verus!
