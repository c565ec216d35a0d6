use top_logs::buckets::{bucketize, Bucket, NO_VALUE};
use top_logs::frequency::NumericTable;
use top_logs::report::histogram_rows;

fn table(counts: &[(usize, usize)]) -> NumericTable {
    let mut table = NumericTable::new();
    for &(key, count) in counts {
        for _ in 0..count {
            table.increment(key);
        }
    }
    table
}

fn bucket(lo: usize, hi: usize, count: usize) -> Bucket {
    Bucket { lo, hi, count }
}

fn row(label: &str, count: usize) -> (String, usize) {
    (label.to_string(), count)
}

#[test]
fn threshold_one_gives_a_bucket_for_each_value() {
    let histogram = bucketize(&table(&[(1, 1), (5, 1), (9, 1)]), 1);
    assert_eq!(histogram.buckets, vec![bucket(1, 2, 1), bucket(5, 6, 1), bucket(9, 10, 1)]);
    assert_eq!(histogram.unknown, 0);
}

#[test]
fn trailing_bucket_under_the_threshold_is_kept() {
    let histogram = bucketize(&table(&[(1, 1), (2, 1), (3, 1)]), 2);
    assert_eq!(histogram.buckets, vec![bucket(1, 3, 2), bucket(3, 4, 1)]);
    assert_eq!(histogram.unknown, 0);
}

#[test]
fn only_observations_without_a_value() {
    let histogram = bucketize(&table(&[(NO_VALUE, 1)]), 100);
    assert!(histogram.buckets.is_empty());
    assert_eq!(histogram.unknown, 1);
    assert_eq!(histogram_rows(&histogram), vec![row("<none>", 1)]);
}

#[test]
fn empty_table_gives_no_bucket() {
    let histogram = bucketize(&table(&[]), 3);
    assert!(histogram.buckets.is_empty());
    assert_eq!(histogram.unknown, 0);
    assert!(histogram_rows(&histogram).is_empty());
}

#[test]
fn bucket_that_starts_at_zero_keeps_its_start() {
    let histogram = bucketize(&table(&[(0, 1), (4, 1), (7, 1)]), 2);
    assert_eq!(histogram.buckets, vec![bucket(0, 5, 2), bucket(7, 8, 1)]);
}

#[test]
fn threshold_zero_closes_every_bucket_at_once() {
    let histogram = bucketize(&table(&[(0, 2), (3, 1)]), 0);
    assert_eq!(histogram.buckets, vec![bucket(0, 1, 2), bucket(3, 4, 1)]);
}

#[test]
fn threshold_never_reached_gives_one_bucket_over_everything() {
    let histogram = bucketize(&table(&[(2, 1), (10, 2), (40, 1)]), 100);
    assert_eq!(histogram.buckets, vec![bucket(2, 41, 4)]);
}

#[test]
fn missing_values_are_reported_apart_from_the_buckets() {
    let histogram = bucketize(&table(&[(NO_VALUE, 3), (0, 5), (1, 1), (2, 4), (NO_VALUE - 1, 1)]), 5);
    assert_eq!(
        histogram.buckets,
        vec![bucket(0, 1, 5), bucket(1, 3, 5), bucket(NO_VALUE - 1, NO_VALUE, 1)]
    );
    assert_eq!(histogram.unknown, 3);
}

#[test]
fn bucket_counts_add_up_to_the_observations_with_a_value() {
    let counts = [(0, 3), (1, 1), (2, 7), (5, 1), (6, 1), (7, 1), (30, 2), (NO_VALUE, 4)];
    for threshold in 0..12 {
        let histogram = bucketize(&table(&counts), threshold);
        let total: usize = histogram.buckets.iter().map(|b| b.count).sum();
        assert_eq!(total, 16);
        assert_eq!(histogram.unknown, 4);
        let closed = histogram.buckets.len() - 1;
        for b in histogram.buckets.iter().take(closed) {
            assert!(b.count >= threshold);
        }
        for w in histogram.buckets.windows(2) {
            assert!(w[0].lo < w[0].hi && w[0].hi <= w[1].lo);
        }
    }
}

#[test]
fn bucket_labels_are_as_wide_as_the_largest_value() {
    let histogram = bucketize(&table(&[(1, 1), (2, 1), (3, 1)]), 2);
    assert_eq!(histogram_rows(&histogram), vec![row("1 to 3", 2), row("3 to 4", 1)]);

    let histogram = bucketize(&table(&[(5, 3), (12, 1), (NO_VALUE, 2)]), 2);
    assert_eq!(
        histogram_rows(&histogram),
        vec![row(" 5 to  6", 3), row("12 to 13", 1), row("<none>", 2)]
    );

    let histogram = bucketize(&table(&[(9, 1)]), 1);
    assert_eq!(histogram_rows(&histogram), vec![row("9 to 10", 1)]);
}
