//! The trusted boundary to the `defaultmap` crate.
//!
//! Nothing in this file is proved. Every contract below is a claim about
//! `defaultmap::DefaultHashMap`, read off that crate's source: a
//! `std::collections::HashMap` paired with one default value that `get`
//! answers with for keys the map does not store.

use defaultmap::DefaultHashMap;
use std::hash::Hash;
use vstd::prelude::*;

verus! {

#[verifier::external_type_specification]
#[verifier::external_body]
#[verifier::reject_recursive_types(K)]
#[verifier::reject_recursive_types(V)]
pub struct ExDefaultHashMap<K: Eq + Hash, V: Clone>(DefaultHashMap<K, V>);

/// The key/value pairs stored in a text-keyed map.
pub uninterp spec fn text_entries(m: DefaultHashMap<String, usize>) -> Map<Seq<char>, usize>;

/// The value a text-keyed map answers with for a key it does not store.
pub uninterp spec fn text_fallback(m: DefaultHashMap<String, usize>) -> usize;

/// The key/value pairs stored in a number-keyed map.
pub uninterp spec fn number_entries(m: DefaultHashMap<usize, usize>) -> Map<usize, usize>;

/// The value a number-keyed map answers with for a key it does not store.
pub uninterp spec fn number_fallback(m: DefaultHashMap<usize, usize>) -> usize;

/// The pairs of a vector of text-keyed pairs, each key taken by its characters.
pub open spec fn text_pairs(pairs: Seq<(String, usize)>) -> Seq<(Seq<char>, usize)> {
    Seq::new(pairs.len(), |i: int| (pairs[i].0@, pairs[i].1))
}

/// Whether `pairs` lists every entry of `entries` exactly once, in whatever
/// order.
pub open spec fn lists_once<K>(pairs: Seq<(K, usize)>, entries: Map<K, usize>) -> bool {
    &&& forall|i: int|
        0 <= i < pairs.len() ==> entries.contains_pair((#[trigger] pairs[i]).0, pairs[i].1)
    &&& forall|i: int, j: int|
        0 <= i < j < pairs.len() ==> (#[trigger] pairs[i]).0 != (#[trigger] pairs[j]).0
    &&& forall|k: K| #[trigger]
        entries.dom().contains(k) ==> exists|i: int|
            0 <= i < pairs.len() && (#[trigger] pairs[i]).0 == k
}

/// `DefaultHashMap::new`: a map that stores nothing and answers with
/// `fallback` for every key.
#[verifier::external_body]
pub(crate) fn text_map_new(fallback: usize) -> (m: DefaultHashMap<String, usize>)
    ensures
        text_entries(m).dom() == Set::<Seq<char>>::empty(),
        text_fallback(m) == fallback,
{
    DefaultHashMap::new(fallback)
}

/// `DefaultHashMap::get`: the value stored under the key, or the default
/// where none is stored. Reading stores nothing.
#[verifier::external_body]
pub(crate) fn text_map_get(m: &DefaultHashMap<String, usize>, key: &str) -> (value: usize)
    ensures
        value == if text_entries(*m).dom().contains(key@) {
            text_entries(*m)[key@]
        } else {
            text_fallback(*m)
        },
{
    *m.get::<str, &str>(key)
}

/// `DefaultHashMap::insert`: stores the value under the key, in place of any
/// value stored under it before; other entries and the default stay.
#[verifier::external_body]
pub(crate) fn text_map_insert(m: &mut DefaultHashMap<String, usize>, key: String, value: usize)
    ensures
        text_entries(*final(m)) == text_entries(*old(m)).insert(key@, value),
        text_fallback(*final(m)) == text_fallback(*old(m)),
{
    m.insert(key, value);
}

/// `DefaultHashMap::is_empty`: whether no key is stored.
#[verifier::external_body]
pub(crate) fn text_map_is_empty(m: &DefaultHashMap<String, usize>) -> (empty: bool)
    ensures
        empty == (text_entries(*m).dom() == Set::<Seq<char>>::empty()),
{
    m.is_empty()
}

/// `DefaultHashMap::iter`: every stored entry once, copied out; the order is
/// the hash map's and nothing is said about it.
#[verifier::external_body]
pub(crate) fn text_map_pairs(m: &DefaultHashMap<String, usize>) -> (pairs: Vec<(String, usize)>)
    ensures
        lists_once(text_pairs(pairs@), text_entries(*m)),
{
    m.iter().map(|(key, value)| (key.clone(), *value)).collect()
}

/// `DefaultHashMap::new`: a map that stores nothing and answers with
/// `fallback` for every key.
#[verifier::external_body]
pub(crate) fn number_map_new(fallback: usize) -> (m: DefaultHashMap<usize, usize>)
    ensures
        number_entries(m).dom() == Set::<usize>::empty(),
        number_fallback(m) == fallback,
{
    DefaultHashMap::new(fallback)
}

/// `DefaultHashMap::get`: the value stored under the key, or the default
/// where none is stored. Reading stores nothing.
#[verifier::external_body]
pub(crate) fn number_map_get(m: &DefaultHashMap<usize, usize>, key: usize) -> (value: usize)
    ensures
        value == if number_entries(*m).dom().contains(key) {
            number_entries(*m)[key]
        } else {
            number_fallback(*m)
        },
{
    *m.get::<usize, usize>(key)
}

/// `DefaultHashMap::insert`: stores the value under the key, in place of any
/// value stored under it before; other entries and the default stay.
#[verifier::external_body]
pub(crate) fn number_map_insert(m: &mut DefaultHashMap<usize, usize>, key: usize, value: usize)
    ensures
        number_entries(*final(m)) == number_entries(*old(m)).insert(key, value),
        number_fallback(*final(m)) == number_fallback(*old(m)),
{
    m.insert(key, value);
}

/// `DefaultHashMap::is_empty`: whether no key is stored.
#[verifier::external_body]
pub(crate) fn number_map_is_empty(m: &DefaultHashMap<usize, usize>) -> (empty: bool)
    ensures
        empty == (number_entries(*m).dom() == Set::<usize>::empty()),
{
    m.is_empty()
}

/// `DefaultHashMap::iter`: every stored entry once, copied out; the order is
/// the hash map's and nothing is said about it.
#[verifier::external_body]
pub(crate) fn number_map_pairs(m: &DefaultHashMap<usize, usize>) -> (pairs: Vec<(usize, usize)>)
    ensures
        lists_once(pairs@, number_entries(*m)),
{
    m.iter().map(|(key, value)| (*key, *value)).collect()
}

} // verus!
