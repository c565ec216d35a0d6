//! Arranging the positions `0..n` of some collection by a strict total
//! order on positions.
//!
//! Because the order is strict and total, the arrangement of a collection is
//! unique: two items that compare alike by their contents are told apart by
//! where they stand.

use vstd::multiset::*;
use vstd::prelude::*;
use vstd::seq_lib::*;

verus! {

/// A strict total order on the positions of a collection.
pub trait Precedence {
    /// How many positions there are.
    spec fn extent(&self) -> nat;

    /// Whether the item at position `a` goes before the item at position `b`.
    spec fn precedes(&self, a: int, b: int) -> bool;

    /// `precedes` is irreflexive, total on distinct positions, and transitive.
    proof fn lemma_strict_total(&self, a: int, b: int, c: int)
        ensures
            !self.precedes(a, a),
            a != b ==> self.precedes(a, b) || self.precedes(b, a),
            self.precedes(a, b) && self.precedes(b, c) ==> self.precedes(a, c),
    ;

    /// How many positions there are.
    fn size(&self) -> (n: usize)
        ensures
            n == self.extent(),
    ;

    /// Whether the item at position `a` goes before the item at position `b`.
    fn comes_first(&self, a: usize, b: usize) -> (first: bool)
        requires
            a < self.extent(),
            b < self.extent(),
        ensures
            first == self.precedes(a as int, b as int),
    ;
}

/// Whether no position in `s` precedes one that stands earlier in `s`.
pub open spec fn in_order<P: Precedence>(p: &P, s: Seq<usize>) -> bool {
    forall|i: int, j: int|
        0 <= i < j < s.len() ==> !p.precedes((#[trigger] s[j]) as int, (#[trigger] s[i]) as int)
}

/// Whether every position in `s` is one of the collection's.
pub open spec fn in_extent<P: Precedence>(p: &P, s: Seq<usize>) -> bool {
    forall|i: int| 0 <= i < s.len() ==> (#[trigger] s[i]) < p.extent()
}

/// Whether `s` holds every position of the collection exactly once, each
/// before all those that it precedes.
pub open spec fn is_arrangement<P: Precedence>(p: &P, s: Seq<usize>) -> bool {
    &&& s.len() == p.extent()
    &&& in_extent(p, s)
    &&& forall|i: int, j: int|
        0 <= i < j < s.len() ==> p.precedes((#[trigger] s[i]) as int, (#[trigger] s[j]) as int)
    &&& forall|x: usize| x < p.extent() ==> #[trigger] s.contains(x)
}

/// The positions `0..n`, in counting order.
pub open spec fn counting(n: nat) -> Seq<usize> {
    Seq::new(n, |i: int| i as usize)
}

/// An arrangement holds the same positions, and is ordered the same way, as
/// any other: there is only one.
pub proof fn lemma_arrangement_unique<P: Precedence>(p: &P, s: Seq<usize>, t: Seq<usize>)
    requires
        is_arrangement(p, s),
        is_arrangement(p, t),
    ensures
        s == t,
{
    assert forall|k: int| 0 <= k < s.len() implies s[k] == t[k] by {
        lemma_arrangement_agrees(p, s, t, k);
    }
    assert(s =~= t);
}

proof fn lemma_arrangement_agrees<P: Precedence>(p: &P, s: Seq<usize>, t: Seq<usize>, k: int)
    requires
        is_arrangement(p, s),
        is_arrangement(p, t),
        0 <= k < s.len(),
    ensures
        s[k] == t[k],
    decreases k,
{
    assert forall|m: int| 0 <= m < k implies s[m] == t[m] by {
        lemma_arrangement_agrees(p, s, t, m);
    }
    let x = s[k] as int;
    let y = t[k] as int;
    if x != y {
        // each of the two stands somewhere in the other sequence, and that
        // place can only be after `k`
        assert(t.contains(s[k]) && s.contains(t[k]));
        let m = choose|m: int| 0 <= m < t.len() && t[m] == x;
        let n = choose|n: int| 0 <= n < s.len() && s[n] == y;
        p.lemma_strict_total(x, y, x);
        p.lemma_strict_total(y, x, y);
        if m < k {
            assert(s[m] == t[m]);
            assert(p.precedes(s[m] as int, s[k] as int));
        }
        if n < k {
            assert(t[n] == s[n]);
            assert(p.precedes(t[n] as int, t[k] as int));
        }
        assert(m > k && n > k);
        assert(p.precedes(t[k] as int, t[m] as int));
        assert(p.precedes(s[k] as int, s[n] as int));
    }
}

/// Merges two ordered runs into one, taking from the left run on a tie.
fn merge<P: Precedence>(p: &P, left: &Vec<usize>, right: &Vec<usize>) -> (out: Vec<usize>)
    requires
        in_order(p, left@),
        in_order(p, right@),
        in_extent(p, left@),
        in_extent(p, right@),
        left@.len() + right@.len() <= usize::MAX,
    ensures
        in_order(p, out@),
        in_extent(p, out@),
        out@.to_multiset() == left@.to_multiset().add(right@.to_multiset()),
{
    let mut out: Vec<usize> = Vec::new();
    let mut i: usize = 0;
    let mut j: usize = 0;
    proof {
        broadcast use group_multiset_axioms;

        let none = Seq::<usize>::empty();
        none.to_multiset_ensures();
        lemma_multiset_empty_len(none.to_multiset());
        assert(left@.take(0) =~= none);
        assert(right@.take(0) =~= none);
        assert(out@ =~= none);
    }
    while i < left.len() || j < right.len()
        invariant
            i <= left@.len(),
            j <= right@.len(),
            left@.len() + right@.len() <= usize::MAX,
            out@.len() == i + j,
            in_order(p, left@),
            in_order(p, right@),
            in_extent(p, left@),
            in_extent(p, right@),
            in_order(p, out@),
            in_extent(p, out@),
            out@.to_multiset() == left@.take(i as int).to_multiset().add(
                right@.take(j as int).to_multiset(),
            ),
            forall|k: int, m: int|
                0 <= k < out@.len() && i <= m < left@.len() ==> !p.precedes(
                    (#[trigger] left@[m]) as int,
                    (#[trigger] out@[k]) as int,
                ),
            forall|k: int, m: int|
                0 <= k < out@.len() && j <= m < right@.len() ==> !p.precedes(
                    (#[trigger] right@[m]) as int,
                    (#[trigger] out@[k]) as int,
                ),
        decreases left@.len() - i + right@.len() - j,
    {
        let take_left = if j == right.len() {
            true
        } else if i == left.len() {
            false
        } else {
            !p.comes_first(right[j], left[i])
        };
        let ghost before = out@;
        if take_left {
            let x = left[i];
            proof {
                broadcast use group_multiset_axioms;
                broadcast use group_to_multiset_ensures;

                assert(left@.take(i + 1) =~= left@.take(i as int).push(x));
                assert forall|m: int| j <= m < right@.len() implies !p.precedes(
                    (#[trigger] right@[m]) as int,
                    x as int,
                ) by {
                    p.lemma_strict_total(right@[m] as int, x as int, right@[j as int] as int);
                    p.lemma_strict_total(x as int, right@[j as int] as int, x as int);
                }
            }
            out.push(x);
            i = i + 1;
            proof {
                broadcast use group_multiset_axioms;
                broadcast use group_to_multiset_ensures;

                assert(out@ == before.push(x));
                assert(out@.to_multiset() =~= left@.take(i as int).to_multiset().add(
                    right@.take(j as int).to_multiset(),
                ));
            }
        } else {
            let y = right[j];
            proof {
                broadcast use group_multiset_axioms;
                broadcast use group_to_multiset_ensures;

                assert(right@.take(j + 1) =~= right@.take(j as int).push(y));
                assert forall|m: int| i <= m < left@.len() implies !p.precedes(
                    (#[trigger] left@[m]) as int,
                    y as int,
                ) by {
                    p.lemma_strict_total(left@[m] as int, y as int, left@[i as int] as int);
                    p.lemma_strict_total(left@[i as int] as int, y as int, left@[i as int] as int);
                }
            }
            out.push(y);
            j = j + 1;
            proof {
                broadcast use group_multiset_axioms;
                broadcast use group_to_multiset_ensures;

                assert(out@ == before.push(y));
                assert(out@.to_multiset() =~= left@.take(i as int).to_multiset().add(
                    right@.take(j as int).to_multiset(),
                ));
            }
        }
    }
    proof {
        assert(left@.take(i as int) =~= left@);
        assert(right@.take(j as int) =~= right@);
    }
    out
}

/// Orders the positions that `items` holds from `lo` up to `hi`.
fn sort_span<P: Precedence>(p: &P, items: &Vec<usize>, lo: usize, hi: usize) -> (out: Vec<usize>)
    requires
        lo <= hi <= items@.len(),
        in_extent(p, items@),
    ensures
        in_order(p, out@),
        in_extent(p, out@),
        out@.to_multiset() == items@.subrange(lo as int, hi as int).to_multiset(),
    decreases hi - lo,
{
    if hi - lo <= 1 {
        let mut out: Vec<usize> = Vec::new();
        if lo < hi {
            out.push(items[lo]);
        }
        proof {
            assert(out@ =~= items@.subrange(lo as int, hi as int));
        }
        out
    } else {
        let mid = lo + (hi - lo) / 2;
        let left = sort_span(p, items, lo, mid);
        let right = sort_span(p, items, mid, hi);
        proof {
            broadcast use group_to_multiset_ensures;

            let a = items@.subrange(lo as int, mid as int);
            let b = items@.subrange(mid as int, hi as int);
            assert(items@.subrange(lo as int, hi as int) =~= a + b);
            lemma_multiset_commutative(a, b);
            a.to_multiset_ensures();
            b.to_multiset_ensures();
            left@.to_multiset_ensures();
            right@.to_multiset_ensures();
        }
        merge(p, &left, &right)
    }
}

/// The arrangement of the collection that `p` orders: every position once,
/// each before all those that it precedes.
pub fn arrange<P: Precedence>(p: &P) -> (positions: Vec<usize>)
    ensures
        is_arrangement(p, positions@),
{
    let n = p.size();
    let mut items: Vec<usize> = Vec::new();
    let mut i: usize = 0;
    while i < n
        invariant
            i <= n,
            n == p.extent(),
            items@ == counting(i as nat),
        decreases n - i,
    {
        items.push(i);
        i = i + 1;
        proof {
            assert(items@ =~= counting(i as nat));
        }
    }
    let positions = sort_span(p, &items, 0, n);
    proof {
        broadcast use group_multiset_axioms;
        broadcast use group_to_multiset_ensures;

        let ids = counting(n as nat);
        let s = positions@;
        assert(items@.subrange(0, n as int) =~= ids);
        assert(s.to_multiset() == ids.to_multiset());
        s.to_multiset_ensures();
        ids.to_multiset_ensures();
        assert(ids.no_duplicates());
        ids.lemma_multiset_has_no_duplicates();
        s.lemma_multiset_has_no_duplicates_conv();
        assert forall|i: int, j: int| 0 <= i < j < s.len() implies p.precedes(
            (#[trigger] s[i]) as int,
            (#[trigger] s[j]) as int,
        ) by {
            p.lemma_strict_total(s[i] as int, s[j] as int, s[i] as int);
        }
        assert forall|x: usize| x < p.extent() implies #[trigger] s.contains(x) by {
            assert(ids[x as int] == x);
            assert(ids.contains(x));
            assert(s.to_multiset().count(x) > 0);
        }
    }
    positions
}

} // verus!
