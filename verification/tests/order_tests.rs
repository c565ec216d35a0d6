use std::cmp::Ordering;
use top_logs::arrange::arrange;
use top_logs::buckets::ValueOrder;
use top_logs::order::{RowOrder, SortOrder};

fn row(key: &str, count: usize) -> (String, usize) {
    (key.to_string(), count)
}

#[test]
fn sort_by_val_puts_the_larger_count_first() {
    assert_eq!(SortOrder::sort_by_val(&row("a", 9), &row("b", 5)), Ordering::Less);
    assert_eq!(SortOrder::sort_by_val(&row("a", 5), &row("b", 9)), Ordering::Greater);
    assert_eq!(SortOrder::sort_by_val(&row("a", 5), &row("b", 5)), Ordering::Equal);
    assert_eq!(SortOrder::sort_by_val(&(1u8, 0), &(2u8, usize::MAX)), Ordering::Greater);
}

#[test]
fn sort_by_key_is_dictionary_order() {
    assert_eq!(SortOrder::sort_by_key(&row("200 OK", 1), &row("404 Not Found", 7)), Ordering::Less);
    assert_eq!(SortOrder::sort_by_key(&row("b", 1), &row("a", 1)), Ordering::Greater);
    assert_eq!(SortOrder::sort_by_key(&row("GET", 1), &row("GET", 2)), Ordering::Equal);
    assert_eq!(SortOrder::sort_by_key(&row("", 1), &row("a", 1)), Ordering::Less);
    assert_eq!(SortOrder::sort_by_key(&row("ab", 1), &row("abc", 1)), Ordering::Less);
    assert_eq!(SortOrder::sort_by_key(&row("abc", 1), &row("ab", 1)), Ordering::Greater);
    assert_eq!(SortOrder::sort_by_key(&row("10", 1), &row("9", 1)), Ordering::Less);
    assert_eq!(SortOrder::sort_by_key(&row("Z", 1), &row("a", 1)), Ordering::Less);
    assert_eq!(SortOrder::sort_by_key(&row("é", 1), &row("z", 1)), Ordering::Greater);
    assert_eq!(SortOrder::sort_by_key(&row("", 1), &row("", 1)), Ordering::Equal);
}

#[test]
fn sort_by_key_agrees_with_the_order_of_strings() {
    let keys = ["", "a", "ab", "abc", "b", "B", "10", "9", "é", "日本", "z", "<none>", "GET", "POST"];
    for a in keys.iter() {
        for b in keys.iter() {
            assert_eq!(SortOrder::sort_by_key(&row(a, 0), &row(b, 0)), a.cmp(b));
        }
    }
}

#[test]
fn arrange_orders_rows_by_value_and_keeps_ties_in_place() {
    let rows = vec![row("a", 1), row("b", 3), row("c", 1), row("d", 2), row("e", 3)];
    let positions = arrange(&RowOrder { rows: &rows, order: SortOrder::ByValue });
    assert_eq!(positions, vec![1, 4, 3, 0, 2]);
}

#[test]
fn arrange_orders_rows_by_key() {
    let rows = vec![row("pear", 1), row("apple", 3), row("fig", 1), row("apple", 2)];
    let positions = arrange(&RowOrder { rows: &rows, order: SortOrder::ByKey });
    assert_eq!(positions, vec![1, 3, 2, 0]);
}

#[test]
fn arrange_of_nothing_is_empty() {
    let rows: Vec<(String, usize)> = Vec::new();
    let positions = arrange(&RowOrder { rows: &rows, order: SortOrder::ByValue });
    assert!(positions.is_empty());
}

#[test]
fn arrange_orders_many_values() {
    let mut pairs: Vec<(usize, usize)> = Vec::new();
    let mut value: usize = 7;
    for _ in 0..1000 {
        value = (value * 31 + 11) % 1009;
        pairs.push((value, 1));
    }
    let positions = arrange(&ValueOrder { pairs: &pairs });
    assert_eq!(positions.len(), 1000);
    let mut seen = vec![false; 1000];
    for &p in positions.iter() {
        assert!(!seen[p]);
        seen[p] = true;
    }
    for w in positions.windows(2) {
        let (a, b) = (w[0], w[1]);
        assert!(pairs[a].0 < pairs[b].0 || (pairs[a].0 == pairs[b].0 && a < b));
    }
}
