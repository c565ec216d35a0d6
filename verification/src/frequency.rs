//! Frequency tables: counters of how often each key was seen.
//!
//! A table is, mathematically, a multiset of observations. A key that was
//! never counted reads as zero, and reading never stores anything.

use crate::default_map::{
    number_entries, number_fallback, number_map_get, number_map_insert, number_map_is_empty,
    number_map_new, number_map_pairs, text_entries, text_fallback, text_map_get, text_map_insert,
    text_map_is_empty, text_map_new, text_map_pairs, text_pairs,
};
use defaultmap::DefaultHashMap;
use vstd::multiset::*;
use vstd::prelude::*;
use vstd::seq_lib::*;

verus! {

/// The multiset that holds each stored key as often as its stored value says.
pub open spec fn tally<K>(entries: Map<K, usize>) -> Multiset<K> {
    Multiset::from_map(Map::new(|k: K| entries.dom().contains(k), |k: K| entries[k] as nat))
}

/// Whether `pairs` names every key that `counts` holds exactly once, each
/// with the number of times it is held, and no other key.
pub open spec fn enumerates<K>(pairs: Seq<(K, usize)>, counts: Multiset<K>) -> bool {
    &&& forall|i: int|
        0 <= i < pairs.len() ==> (#[trigger] pairs[i]).1 > 0 && counts.count(pairs[i].0)
            == pairs[i].1
    &&& forall|i: int, j: int|
        0 <= i < j < pairs.len() ==> (#[trigger] pairs[i]).0 != (#[trigger] pairs[j]).0
    &&& forall|k: K| #[trigger]
        counts.count(k) > 0 ==> exists|i: int| 0 <= i < pairs.len() && (#[trigger] pairs[i]).0 == k
}

proof fn lemma_tally_count<K>(entries: Map<K, usize>, k: K)
    requires
        entries.dom().finite(),
    ensures
        tally(entries).count(k) == if entries.dom().contains(k) {
            entries[k] as nat
        } else {
            0
        },
{
    broadcast use group_multiset_axioms;

    let m = Map::new(|k: K| entries.dom().contains(k), |k: K| entries[k] as nat);
    assert(m.dom() =~= entries.dom());
}

proof fn lemma_tally_insert<K>(entries: Map<K, usize>, k: K, v: usize)
    requires
        entries.dom().finite(),
        v == tally(entries).count(k) + 1,
    ensures
        tally(entries.insert(k, v)) == tally(entries).insert(k),
{
    broadcast use group_multiset_axioms;

    assert forall|x: K| tally(entries.insert(k, v)).count(x) == tally(entries).insert(k).count(
        x,
    ) by {
        lemma_tally_count(entries, x);
        lemma_tally_count(entries.insert(k, v), x);
    }
    assert(tally(entries.insert(k, v)) =~= tally(entries).insert(k));
}

/// A table with each of `keys` counted once more, one after the other.
pub open spec fn incremented_all<K>(table: Multiset<K>, keys: Seq<K>) -> Multiset<K>
    decreases keys.len(),
{
    if keys.len() == 0 {
        table
    } else {
        incremented_all(table, keys.drop_last()).insert(keys.last())
    }
}

/// Counting two keys gives the same table in either order.
pub proof fn lemma_increment_commutes<K>(table: Multiset<K>, a: K, b: K)
    ensures
        table.insert(a).insert(b) == table.insert(b).insert(a),
{
    broadcast use group_multiset_axioms;

    assert(table.insert(a).insert(b) =~= table.insert(b).insert(a));
}

/// What a table holds after a run of increments depends on which keys were
/// counted and how often, not on their order: it is the table joined with the
/// keys taken as a multiset.
pub proof fn lemma_increments_add_up<K>(table: Multiset<K>, keys: Seq<K>)
    ensures
        incremented_all(table, keys) == table.add(keys.to_multiset()),
    decreases keys.len(),
{
    broadcast use group_multiset_axioms;

    keys.to_multiset_ensures();
    if keys.len() == 0 {
        lemma_multiset_empty_len(keys.to_multiset());
        assert(incremented_all(table, keys) =~= table.add(keys.to_multiset()));
    } else {
        let earlier = keys.drop_last();
        lemma_increments_add_up(table, earlier);
        earlier.to_multiset_ensures();
        assert(earlier.push(keys.last()) =~= keys);
        assert(incremented_all(table, keys) =~= table.add(keys.to_multiset()));
    }
}

/// A counter keyed by text.
#[derive(Debug)]
pub struct FrequencyTable {
    map: DefaultHashMap<String, usize>,
    total: usize,
}

impl View for FrequencyTable {
    type V = Multiset<Seq<char>>;

    closed spec fn view(&self) -> Multiset<Seq<char>> {
        tally(text_entries(self.map))
    }
}

impl FrequencyTable {
    #[verifier::type_invariant]
    spec fn well_formed(&self) -> bool {
        &&& text_fallback(self.map) == 0
        &&& self.total == tally(text_entries(self.map)).len()
        &&& text_entries(self.map).dom().finite()
        &&& forall|k: Seq<char>| #[trigger]
            text_entries(self.map).dom().contains(k) ==> text_entries(self.map)[k] > 0
    }

    /// A table in which nothing has been counted.
    pub fn new() -> (table: FrequencyTable)
        ensures
            table@ == Multiset::<Seq<char>>::empty(),
    {
        let map = text_map_new(0);
        proof {
            broadcast use group_multiset_axioms;

            assert forall|k: Seq<char>| tally(text_entries(map)).count(k) == 0 by {
                lemma_tally_count(text_entries(map), k);
            }
            assert(tally(text_entries(map)) =~= Multiset::<Seq<char>>::empty());
        }
        FrequencyTable { map, total: 0 }
    }

    /// How often `key` has been counted; zero for a key never counted.
    pub fn get(&self, key: &str) -> (count: usize)
        ensures
            count == self@.count(key@),
    {
        proof {
            use_type_invariant(self);
            lemma_tally_count(text_entries(self.map), key@);
        }
        text_map_get(&self.map, key)
    }

    /// Counts `key` once more.
    pub fn increment(&mut self, key: String)
        requires
            old(self)@.len() < usize::MAX,
        ensures
            final(self)@ == old(self)@.insert(key@),
    {
        proof {
            broadcast use group_multiset_axioms;

            use_type_invariant(&*self);
            lemma_tally_count(text_entries(self.map), key@);
        }
        let ghost before = text_entries(self.map);
        let count = text_map_get(&self.map, key.as_str());
        // the table is taken apart for the update and put together again,
        // so that what `self` holds is a whole table at every step
        let mut taken = FrequencyTable::new();
        std::mem::swap(self, &mut taken);
        let FrequencyTable { mut map, total } = taken;
        text_map_insert(&mut map, key, count + 1);
        proof {
            broadcast use group_multiset_axioms;

            lemma_tally_insert(before, key@, (count + 1) as usize);
        }
        *self = FrequencyTable { map, total: total + 1 };
    }

    /// How many observations the table holds, all keys together.
    pub fn total(&self) -> (total: usize)
        ensures
            total == self@.len(),
    {
        proof {
            use_type_invariant(self);
        }
        self.total
    }

    /// Whether nothing has been counted.
    pub fn is_empty(&self) -> (empty: bool)
        ensures
            empty == (self@.len() == 0),
    {
        proof {
            use_type_invariant(self);
            broadcast use group_multiset_axioms;

            let entries = text_entries(self.map);
            if entries.dom() == Set::<Seq<char>>::empty() {
                assert forall|k: Seq<char>| self@.count(k) == 0 by {
                    lemma_tally_count(entries, k);
                }
                assert(self@ =~= Multiset::<Seq<char>>::empty());
            } else {
                assert(!(entries.dom() =~= Set::<Seq<char>>::empty()));
                let k = choose|k: Seq<char>| entries.dom().contains(k);
                lemma_tally_count(entries, k);
                assert(self@.count(k) > 0);
            }
        }
        text_map_is_empty(&self.map)
    }

    /// Every counted key with its count, each key once, in no particular
    /// order.
    pub fn iterate(&self) -> (pairs: Vec<(String, usize)>)
        ensures
            enumerates(text_pairs(pairs@), self@),
    {
        let pairs = text_map_pairs(&self.map);
        proof {
            use_type_invariant(self);
            let entries = text_entries(self.map);
            let listed = text_pairs(pairs@);
            assert forall|i: int| 0 <= i < listed.len() implies (#[trigger] listed[i]).1 > 0
                && self@.count(listed[i].0) == listed[i].1 by {
                lemma_tally_count(entries, listed[i].0);
            }
            assert forall|k: Seq<char>| #[trigger] self@.count(k) > 0 implies exists|i: int|
                0 <= i < listed.len() && (#[trigger] listed[i]).0 == k by {
                lemma_tally_count(entries, k);
            }
        }
        pairs
    }
}

/// A counter keyed by whole numbers.
#[derive(Debug)]
pub struct NumericTable {
    map: DefaultHashMap<usize, usize>,
    total: usize,
}

impl View for NumericTable {
    type V = Multiset<usize>;

    closed spec fn view(&self) -> Multiset<usize> {
        tally(number_entries(self.map))
    }
}

impl NumericTable {
    #[verifier::type_invariant]
    spec fn well_formed(&self) -> bool {
        &&& number_fallback(self.map) == 0
        &&& self.total == tally(number_entries(self.map)).len()
        &&& number_entries(self.map).dom().finite()
        &&& forall|k: usize| #[trigger]
            number_entries(self.map).dom().contains(k) ==> number_entries(self.map)[k] > 0
    }

    /// A table in which nothing has been counted.
    pub fn new() -> (table: NumericTable)
        ensures
            table@ == Multiset::<usize>::empty(),
    {
        let map = number_map_new(0);
        proof {
            broadcast use group_multiset_axioms;

            assert forall|k: usize| tally(number_entries(map)).count(k) == 0 by {
                lemma_tally_count(number_entries(map), k);
            }
            assert(tally(number_entries(map)) =~= Multiset::<usize>::empty());
        }
        NumericTable { map, total: 0 }
    }

    /// How often `key` has been counted; zero for a key never counted.
    pub fn get(&self, key: usize) -> (count: usize)
        ensures
            count == self@.count(key),
    {
        proof {
            use_type_invariant(self);
            lemma_tally_count(number_entries(self.map), key);
        }
        number_map_get(&self.map, key)
    }

    /// Counts `key` once more.
    pub fn increment(&mut self, key: usize)
        requires
            old(self)@.len() < usize::MAX,
        ensures
            final(self)@ == old(self)@.insert(key),
    {
        proof {
            broadcast use group_multiset_axioms;

            use_type_invariant(&*self);
            lemma_tally_count(number_entries(self.map), key);
        }
        let ghost before = number_entries(self.map);
        let count = number_map_get(&self.map, key);
        // the table is taken apart for the update and put together again,
        // so that what `self` holds is a whole table at every step
        let mut taken = NumericTable::new();
        std::mem::swap(self, &mut taken);
        let NumericTable { mut map, total } = taken;
        number_map_insert(&mut map, key, count + 1);
        proof {
            broadcast use group_multiset_axioms;

            lemma_tally_insert(before, key, (count + 1) as usize);
        }
        *self = NumericTable { map, total: total + 1 };
    }

    /// How many observations the table holds, all keys together.
    pub fn total(&self) -> (total: usize)
        ensures
            total == self@.len(),
    {
        proof {
            use_type_invariant(self);
        }
        self.total
    }

    /// Whether nothing has been counted.
    pub fn is_empty(&self) -> (empty: bool)
        ensures
            empty == (self@.len() == 0),
    {
        proof {
            use_type_invariant(self);
            broadcast use group_multiset_axioms;

            let entries = number_entries(self.map);
            if entries.dom() == Set::<usize>::empty() {
                assert forall|k: usize| self@.count(k) == 0 by {
                    lemma_tally_count(entries, k);
                }
                assert(self@ =~= Multiset::<usize>::empty());
            } else {
                assert(!(entries.dom() =~= Set::<usize>::empty()));
                let k = choose|k: usize| entries.dom().contains(k);
                lemma_tally_count(entries, k);
                assert(self@.count(k) > 0);
            }
        }
        number_map_is_empty(&self.map)
    }

    /// Every counted key with its count, each key once, in no particular
    /// order.
    pub fn iterate(&self) -> (pairs: Vec<(usize, usize)>)
        ensures
            enumerates(pairs@, self@),
    {
        let pairs = number_map_pairs(&self.map);
        proof {
            use_type_invariant(self);
            let entries = number_entries(self.map);
            assert forall|i: int| 0 <= i < pairs@.len() implies (#[trigger] pairs@[i]).1 > 0
                && self@.count(pairs@[i].0) == pairs@[i].1 by {
                lemma_tally_count(entries, pairs@[i].0);
            }
            assert forall|k: usize| #[trigger] self@.count(k) > 0 implies exists|i: int|
                0 <= i < pairs@.len() && (#[trigger] pairs@[i]).0 == k by {
                lemma_tally_count(entries, k);
            }
        }
        pairs
    }
}

} // verus!
