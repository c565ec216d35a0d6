use top_logs::labels::{decimal_text, decimal_width, padded_text};
use top_logs::order::SortOrder;
use top_logs::report::render_table;

fn row(key: &str, count: usize) -> (String, usize) {
    (key.to_string(), count)
}

#[test]
fn top_two_by_value() {
    let pairs = vec![row("a", 5), row("b", 9), row("c", 1)];
    assert_eq!(render_table(&pairs, SortOrder::ByValue, 2), vec![row("b", 9), row("a", 5)]);
}

#[test]
fn rows_that_tie_keep_their_order() {
    let pairs = vec![row("x", 1), row("y", 1), row("z", 2), row("w", 1)];
    assert_eq!(
        render_table(&pairs, SortOrder::ByValue, 10),
        vec![row("z", 2), row("x", 1), row("y", 1), row("w", 1)]
    );
}

#[test]
fn by_key_is_dictionary_order_of_the_labels() {
    let pairs = vec![row("500 Internal Server Error", 1), row("200 OK", 40), row("404 Not Found", 7)];
    assert_eq!(
        render_table(&pairs, SortOrder::ByKey, usize::MAX),
        vec![row("200 OK", 40), row("404 Not Found", 7), row("500 Internal Server Error", 1)]
    );
    let pairs = vec![row("9", 1), row("10", 1)];
    assert_eq!(render_table(&pairs, SortOrder::ByKey, usize::MAX), vec![row("10", 1), row("9", 1)]);
}

#[test]
fn limit_larger_than_the_table_shows_everything() {
    let pairs = vec![row("a", 1), row("b", 2)];
    assert_eq!(render_table(&pairs, SortOrder::ByValue, 3), vec![row("b", 2), row("a", 1)]);
    assert_eq!(render_table(&pairs, SortOrder::ByValue, usize::MAX), vec![row("b", 2), row("a", 1)]);
}

#[test]
fn limit_zero_shows_nothing() {
    let pairs = vec![row("a", 1), row("b", 2)];
    assert!(render_table(&pairs, SortOrder::ByValue, 0).is_empty());
    assert!(render_table(&Vec::new(), SortOrder::ByKey, 5).is_empty());
}

#[test]
fn numbers_are_written_in_decimal() {
    assert_eq!(decimal_text(0), "0");
    assert_eq!(decimal_text(7), "7");
    assert_eq!(decimal_text(10), "10");
    assert_eq!(decimal_text(1905), "1905");
    assert_eq!(decimal_text(usize::MAX), usize::MAX.to_string());
    assert_eq!(decimal_width(0), 1);
    assert_eq!(decimal_width(9), 1);
    assert_eq!(decimal_width(10), 2);
    assert_eq!(decimal_width(99_999), 5);
    assert_eq!(decimal_width(usize::MAX), usize::MAX.to_string().len());
}

#[test]
fn padding_fills_from_the_left() {
    assert_eq!(padded_text(5, 3), "  5");
    assert_eq!(padded_text(123, 3), "123");
    assert_eq!(padded_text(1234, 3), "1234");
    assert_eq!(padded_text(0, 0), "0");
    assert_eq!(padded_text(42, 6), format!("{:6}", 42));
}
