//! The two orders in which a report lists the rows of a table, and the
//! comparison functions behind them.

use crate::arrange::Precedence;
use crate::default_map::text_pairs;
use std::cmp::Ordering;
use vstd::prelude::*;
use vstd::std_specs::iter::IteratorSpec;

verus! {

/// How the rows of a table are ordered for display.
#[derive(Clone, Copy, Debug, PartialEq, Eq)]
pub enum SortOrder {
    /// Largest count first.
    ByValue,
    /// By the key's text, in dictionary order of its characters.
    ByKey,
}

/// Dictionary order on texts, character by character; a text goes before
/// every longer text that it begins.
pub open spec fn text_before(a: Seq<char>, b: Seq<char>) -> bool
    decreases a.len(),
{
    if b.len() == 0 {
        false
    } else if a.len() == 0 {
        true
    } else if a[0] != b[0] {
        a[0] < b[0]
    } else {
        text_before(a.drop_first(), b.drop_first())
    }
}

/// No text goes before itself.
pub proof fn lemma_text_before_irreflexive(a: Seq<char>)
    ensures
        !text_before(a, a),
    decreases a.len(),
{
    if a.len() > 0 {
        lemma_text_before_irreflexive(a.drop_first());
    }
}

/// Of two different texts, one goes before the other.
pub proof fn lemma_text_before_total(a: Seq<char>, b: Seq<char>)
    requires
        a != b,
    ensures
        text_before(a, b) || text_before(b, a),
    decreases a.len(),
{
    if a.len() == 0 || b.len() == 0 {
        if a.len() == 0 && b.len() == 0 {
            assert(a =~= b);
        }
    } else if a[0] == b[0] {
        if a.drop_first() == b.drop_first() {
            assert(a =~= seq![a[0]] + a.drop_first());
            assert(b =~= seq![b[0]] + b.drop_first());
        }
        lemma_text_before_total(a.drop_first(), b.drop_first());
    }
}

/// What goes before a text goes before everything that the text goes before.
pub proof fn lemma_text_before_transitive(a: Seq<char>, b: Seq<char>, c: Seq<char>)
    requires
        text_before(a, b),
        text_before(b, c),
    ensures
        text_before(a, c),
    decreases a.len(),
{
    if a.len() > 0 && a[0] == b[0] && b[0] == c[0] {
        lemma_text_before_transitive(a.drop_first(), b.drop_first(), c.drop_first());
    }
}

/// The outcome of comparing two texts in dictionary order.
pub open spec fn lexical(a: Seq<char>, b: Seq<char>) -> Ordering {
    if text_before(a, b) {
        Ordering::Less
    } else if text_before(b, a) {
        Ordering::Greater
    } else {
        Ordering::Equal
    }
}

/// The outcome of comparing two counts so that the larger one comes first.
pub open spec fn descending(a: usize, b: usize) -> Ordering {
    if a > b {
        Ordering::Less
    } else if a < b {
        Ordering::Greater
    } else {
        Ordering::Equal
    }
}

/// Compares two texts in dictionary order, character by character.
fn compare_text(a: &str, b: &str) -> (outcome: Ordering)
    ensures
        outcome == lexical(a@, b@),
{
    broadcast use vstd::string::group_string_axioms;

    let mut left = a.chars();
    let mut right = b.chars();
    loop
        invariant
            left.decrease() is Some,
            lexical(left.remaining(), right.remaining()) == lexical(a@, b@),
        decreases left.decrease()->0,
    {
        match (left.next(), right.next()) {
            (None, None) => {
                return Ordering::Equal;
            },
            (None, Some(_)) => {
                return Ordering::Less;
            },
            (Some(_), None) => {
                return Ordering::Greater;
            },
            (Some(x), Some(y)) => {
                if x < y {
                    return Ordering::Less;
                }
                if y < x {
                    return Ordering::Greater;
                }
            },
        }
    }
}

impl SortOrder {
    /// Compares two rows by their counts, the larger count first.
    pub fn sort_by_val<K>(a: &(K, usize), b: &(K, usize)) -> (outcome: Ordering)
        ensures
            outcome == descending(a.1, b.1),
    {
        if a.1 > b.1 {
            Ordering::Less
        } else if a.1 < b.1 {
            Ordering::Greater
        } else {
            Ordering::Equal
        }
    }

    /// Compares two rows by the text of their keys, in dictionary order.
    pub fn sort_by_key<V>(a: &(String, V), b: &(String, V)) -> (outcome: Ordering)
        ensures
            outcome == lexical(a.0@, b.0@),
    {
        compare_text(a.0.as_str(), b.0.as_str())
    }
}

/// Whether row `a` is listed before row `b` on the strength of its contents
/// alone.
pub open spec fn row_before(order: SortOrder, a: (Seq<char>, usize), b: (Seq<char>, usize)) -> bool {
    match order {
        SortOrder::ByValue => a.1 > b.1,
        SortOrder::ByKey => text_before(a.0, b.0),
    }
}

/// Whether the row at position `a` is listed before the one at position `b`:
/// by its contents, or, where the contents tie, because it stands first.
pub open spec fn row_precedes(
    rows: Seq<(Seq<char>, usize)>,
    order: SortOrder,
    a: int,
    b: int,
) -> bool {
    row_before(order, rows[a], rows[b]) || (!row_before(order, rows[b], rows[a]) && a < b)
}

/// `row_precedes` is a strict total order on positions.
pub proof fn lemma_row_precedes_strict_total(
    rows: Seq<(Seq<char>, usize)>,
    order: SortOrder,
    a: int,
    b: int,
    c: int,
)
    ensures
        !row_precedes(rows, order, a, a),
        a != b ==> row_precedes(rows, order, a, b) || row_precedes(rows, order, b, a),
        row_precedes(rows, order, a, b) && row_precedes(rows, order, b, c) ==> row_precedes(
            rows,
            order,
            a,
            c,
        ),
{
    if order == SortOrder::ByKey {
        let x = rows[a].0;
        let y = rows[b].0;
        let z = rows[c].0;
        lemma_text_before_irreflexive(x);
        lemma_text_before_irreflexive(y);
        if x != y {
            lemma_text_before_total(x, y);
        }
        if y != z {
            lemma_text_before_total(y, z);
        }
        if x != z {
            lemma_text_before_total(x, z);
        }
        if text_before(x, y) && text_before(y, z) {
            lemma_text_before_transitive(x, y, z);
        }
        if text_before(z, x) && text_before(x, y) {
            lemma_text_before_transitive(z, x, y);
        }
        if text_before(y, z) && text_before(z, x) {
            lemma_text_before_transitive(y, z, x);
        }
    }
}

/// The rows of a table under one of the two orders.
pub struct RowOrder<'a> {
    pub rows: &'a Vec<(String, usize)>,
    pub order: SortOrder,
}

impl<'a> Precedence for RowOrder<'a> {
    open spec fn extent(&self) -> nat {
        self.rows@.len()
    }

    open spec fn precedes(&self, a: int, b: int) -> bool {
        row_precedes(text_pairs(self.rows@), self.order, a, b)
    }

    proof fn lemma_strict_total(&self, a: int, b: int, c: int) {
        lemma_row_precedes_strict_total(text_pairs(self.rows@), self.order, a, b, c);
    }

    fn size(&self) -> (n: usize) {
        self.rows.len()
    }

    fn comes_first(&self, a: usize, b: usize) -> (first: bool) {
        let outcome = match self.order {
            SortOrder::ByValue => SortOrder::sort_by_val(&self.rows[a], &self.rows[b]),
            SortOrder::ByKey => SortOrder::sort_by_key(&self.rows[a], &self.rows[b]),
        };
        match outcome {
            Ordering::Less => true,
            Ordering::Greater => false,
            Ordering::Equal => a < b,
        }
    }
}

} // verus!
