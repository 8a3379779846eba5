//! The hash maps and sets of `rustc_hash`, keyed by indices.
use rustc_hash::FxHashMap;
use rustc_hash::FxHashSet;
use vstd::prelude::*;

verus! {

/// The state that `rustc_hash` builds its hashers from: always the same, so a key hashes alike in
/// every map.
#[verifier::external_type_specification]
#[verifier::external_body]
pub struct ExFxBuildHasher(rustc_hash::FxBuildHasher);

/// `FxHashMap::default`: the new map holds no key.
#[verifier::external_body]
pub(crate) fn map_new<V>() -> (m: FxHashMap<usize, V>)
    ensures
        (m@ == Map::<usize, V>::empty()),
{
    FxHashMap::default()
}

/// `insert` of an `FxHashMap`: the key has the new value, every other key what it had.
#[verifier::external_body]
pub(crate) fn map_insert<V>(m: &mut FxHashMap<usize, V>, key: usize, value: V)
    ensures
        final(m)@ == old(m)@.insert(key, value),
{
    m.insert(key, value);
}

/// `remove` of an `FxHashMap`: the key has no value, every other key what it had; the result is
/// the value that the key had.
#[verifier::external_body]
pub(crate) fn map_remove<V>(m: &mut FxHashMap<usize, V>, key: usize) -> (r: Option<V>)
    ensures
        final(m)@ == old(m)@.remove(key),
        r == if old(m)@.contains_key(key) { Some(old(m)@[key]) } else { None::<V> },
{
    m.remove(&key)
}

/// `get` of an `FxHashMap`: the key's value, if it has one.
#[verifier::external_body]
pub(crate) fn map_get<V>(m: &FxHashMap<usize, V>, key: usize) -> (r: Option<&V>)
    ensures
        r == if m@.contains_key(key) { Some(&m@[key]) } else { None::<&V> },
{
    m.get(&key)
}

/// `keys` of an `FxHashMap`: every key once, in no particular order.
#[verifier::external_body]
pub(crate) fn map_keys<V>(m: &FxHashMap<usize, V>) -> (r: Vec<usize>)
    ensures
        r@.no_duplicates(),
        forall|k: usize| r@.contains(k) <==> m@.contains_key(k),
{
    m.keys().copied().collect()
}

/// `len` of an `FxHashMap`: the number of its keys.
#[verifier::external_body]
pub(crate) fn map_len<V>(m: &FxHashMap<usize, V>) -> (n: usize)
    ensures
        n == m@.dom().len(),
{
    m.len()
}

/// `FxHashSet::default`: the new set is empty.
#[verifier::external_body]
pub(crate) fn set_new() -> (s: FxHashSet<usize>)
    ensures
        s@ == Set::<usize>::empty(),
{
    FxHashSet::default()
}

/// `insert` of an `FxHashSet`: the set holds the element as well as what it held; the result
/// says whether the element is new.
#[verifier::external_body]
pub(crate) fn set_insert(s: &mut FxHashSet<usize>, element: usize) -> (fresh: bool)
    ensures
        final(s)@ == old(s)@.insert(element),
        fresh == !old(s)@.contains(element),
{
    s.insert(element)
}

/// `remove` of an `FxHashSet`: the set holds what it held but for the element.
#[verifier::external_body]
pub(crate) fn set_remove(s: &mut FxHashSet<usize>, element: usize)
    ensures
        final(s)@ == old(s)@.remove(element),
{
    s.remove(&element);
}

/// `contains` of an `FxHashSet`.
#[verifier::external_body]
pub(crate) fn set_contains(s: &FxHashSet<usize>, element: usize) -> (r: bool)
    ensures
        r == s@.contains(element),
{
    s.contains(&element)
}

/// `iter` of an `FxHashSet`: every element once, in no particular order.
#[verifier::external_body]
pub(crate) fn set_elements(s: &FxHashSet<usize>) -> (r: Vec<usize>)
    ensures
        r@.no_duplicates(),
        forall|k: usize| r@.contains(k) <==> s@.contains(k),
{
    s.iter().copied().collect()
}

/// `FxHashSet::default` over pairs: the new set is empty.
#[verifier::external_body]
pub(crate) fn pair_set_new() -> (s: FxHashSet<(usize, usize)>)
    ensures
        (s@ == Set::<(usize, usize)>::empty()),
{
    FxHashSet::default()
}

/// `insert` of an `FxHashSet` of pairs: the set holds the pair as well as what it held; the result
/// says whether the pair is new.
#[verifier::external_body]
pub(crate) fn pair_set_insert(s: &mut FxHashSet<(usize, usize)>, pair: (usize, usize)) -> (fresh: bool)
    ensures
        final(s)@ == old(s)@.insert(pair),
        fresh == !old(s)@.contains(pair),
{
    s.insert(pair)
}

/// `FxHashMap::default` over triples: the new map holds no key.
#[verifier::external_body]
pub(crate) fn triple_map_new() -> (m: FxHashMap<(usize, usize, u8), usize>)
    ensures
        (m@ == Map::<(usize, usize, u8), usize>::empty()),
{
    FxHashMap::default()
}

/// `insert` of an `FxHashMap` over triples: the key has the new value, every other key what it had.
#[verifier::external_body]
pub(crate) fn triple_map_insert(m: &mut FxHashMap<(usize, usize, u8), usize>, key: (usize, usize, u8), value: usize)
    ensures
        final(m)@ == old(m)@.insert(key, value),
{
    m.insert(key, value);
}

/// `get` of an `FxHashMap` over triples: the key's value, if it has one.
#[verifier::external_body]
pub(crate) fn triple_map_get(m: &FxHashMap<(usize, usize, u8), usize>, key: (usize, usize, u8)) -> (r: Option<&usize>)
    ensures
        r == if m@.contains_key(key) { Some(&m@[key]) } else { None::<&usize> },
{
    m.get(&key)
}

/// `keys` of an `FxHashMap` over triples: every key once, in no particular order.
#[verifier::external_body]
pub(crate) fn triple_map_keys(m: &FxHashMap<(usize, usize, u8), usize>) -> (r: Vec<(usize, usize, u8)>)
    ensures
        r@.no_duplicates(),
        forall|k: (usize, usize, u8)| r@.contains(k) <==> m@.contains_key(k),
{
    m.keys().copied().collect()
}

} // verus!
