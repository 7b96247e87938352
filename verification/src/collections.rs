//! The ordered and concurrent maps that the schedulers keep their state in, and what is relied on
//! of them.

use crossbeam_skiplist::SkipMap;
use dashmap::DashMap;
use std::collections::{BTreeMap, BTreeSet};
use vstd::prelude::*;

verus! {

/// `std::collections::BTreeMap::last_key_value`, reduced to the key: the greatest key of the map,
/// and `None` exactly where the map is empty.
#[verifier::external_body]
pub(crate) fn last_key_u128(m: &BTreeMap<u128, usize>) -> (r: Option<u128>)
    ensures
        match r {
            Some(k) => m@.dom().contains(k) && (forall|j: u128| #[trigger]
                m@.dom().contains(j) ==> j <= k),
            None => m@.dom() == Set::<u128>::empty(),
        },
{
    m.last_key_value().map(|entry| *entry.0)
}

/// `std::collections::BTreeSet::last`: the greatest element of the set, and `None` exactly where
/// the set is empty.
#[verifier::external_body]
pub(crate) fn last_u128(s: &BTreeSet<u128>) -> (r: Option<u128>)
    ensures
        match r {
            Some(k) => s@.contains(k) && (forall|j: u128| #[trigger] s@.contains(j) ==> j <= k),
            None => s@ == Set::<u128>::empty(),
        },
{
    s.last().copied()
}

/// The hash map of `dashmap`.
#[verifier::external_type_specification]
#[verifier::external_body]
#[verifier::reject_recursive_types(K)]
#[verifier::reject_recursive_types(V)]
#[verifier::reject_recursive_types(S)]
pub struct ExDashMap<K, V, S>(dashmap::DashMap<K, V, S>);

/// The entries of a hash map from addresses to page numbers.
pub uninterp spec fn dash_map_entries(m: DashMap<[u8; 32], usize>) -> Map<[u8; 32], usize>;

/// `dashmap::DashMap::new`: a map without entries.
#[verifier::external_body]
pub(crate) fn dash_map_new() -> (m: DashMap<[u8; 32], usize>)
    ensures
        dash_map_entries(m).dom() == Set::<[u8; 32]>::empty(),
{
    DashMap::new()
}

/// `dashmap::DashMap::entry` with `Entry::or_insert`: the value under `key` is returned, after
/// `value` was put there if the key had none.
#[verifier::external_body]
pub(crate) fn dash_map_entry_or_insert(
    m: &mut DashMap<[u8; 32], usize>,
    key: [u8; 32],
    value: usize,
) -> (r: usize)
    ensures
        dash_map_entries(*old(m)).dom().contains(key) ==> dash_map_entries(*final(m))
            == dash_map_entries(*old(m)) && r == dash_map_entries(*old(m))[key],
        !dash_map_entries(*old(m)).dom().contains(key) ==> dash_map_entries(*final(m))
            == dash_map_entries(*old(m)).insert(key, value) && r == value,
{
    *m.entry(key).or_insert(value)
}

/// `std::collections::BTreeMap::last_key_value`, reduced to the key, for keys of 64 bits: the
/// greatest key of the map, and `None` exactly where the map is empty.
#[verifier::external_body]
pub(crate) fn last_key_u64(m: &BTreeMap<u64, usize>) -> (r: Option<u64>)
    ensures
        match r {
            Some(k) => m@.dom().contains(k) && (forall|j: u64| #[trigger]
                m@.dom().contains(j) ==> j <= k),
            None => m@.dom() == Set::<u64>::empty(),
        },
{
    m.last_key_value().map(|entry| *entry.0)
}

/// The ordered map of `crossbeam_skiplist`.
#[verifier::external_type_specification]
#[verifier::external_body]
#[verifier::reject_recursive_types(K)]
#[verifier::reject_recursive_types(V)]
pub struct ExSkipMap<K, V>(crossbeam_skiplist::SkipMap<K, V>);

/// The entries of a skip list from weights to task numbers.
pub uninterp spec fn skip_map_entries(m: SkipMap<u64, usize>) -> Map<u64, usize>;

/// `crossbeam_skiplist::SkipMap::new`: a map without entries.
#[verifier::external_body]
pub(crate) fn skip_map_new() -> (m: SkipMap<u64, usize>)
    ensures
        skip_map_entries(m).dom() == Set::<u64>::empty(),
{
    SkipMap::new()
}

/// `crossbeam_skiplist::SkipMap::get_or_insert`: the value under `key` is returned, after `value`
/// was put there if the key had none.
#[verifier::external_body]
pub(crate) fn skip_map_get_or_insert(m: &mut SkipMap<u64, usize>, key: u64, value: usize) -> (r:
    usize)
    ensures
        skip_map_entries(*old(m)).dom().contains(key) ==> skip_map_entries(*final(m))
            == skip_map_entries(*old(m)) && r == skip_map_entries(*old(m))[key],
        !skip_map_entries(*old(m)).dom().contains(key) ==> skip_map_entries(*final(m))
            == skip_map_entries(*old(m)).insert(key, value) && r == value,
{
    *m.get_or_insert(key, value).value()
}

/// `crossbeam_skiplist::SkipMap::remove`: the entry of `key` is taken out, if there is one.
#[verifier::external_body]
pub(crate) fn skip_map_remove(m: &mut SkipMap<u64, usize>, key: u64) -> (r: Option<usize>)
    ensures
        skip_map_entries(*final(m)) == skip_map_entries(*old(m)).remove(key),
        r == skip_map_entries(*old(m)).get(key),
{
    m.remove(&key).map(|entry| *entry.value())
}

/// `crossbeam_skiplist::SkipMap::back`: the entry of the greatest key, and `None` exactly where the
/// map is empty.
#[verifier::external_body]
pub(crate) fn skip_map_back(m: &SkipMap<u64, usize>) -> (r: Option<(u64, usize)>)
    ensures
        match r {
            Some(e) => skip_map_entries(*m).dom().contains(e.0) && skip_map_entries(*m)[e.0] == e.1
                && (forall|j: u64| #[trigger] skip_map_entries(*m).dom().contains(j) ==> j <= e.0),
            None => skip_map_entries(*m).dom() == Set::<u64>::empty(),
        },
{
    m.back().map(|entry| (*entry.key(), *entry.value()))
}

/// `crossbeam_skiplist::map::Entry::prev` on the entry of `key`: the entry of the greatest key
/// below it, and `None` exactly where there is none.
#[verifier::external_body]
pub(crate) fn skip_map_prev(m: &SkipMap<u64, usize>, key: u64) -> (r: Option<(u64, usize)>)
    requires
        skip_map_entries(*m).dom().contains(key),
    ensures
        match r {
            Some(e) => skip_map_entries(*m).dom().contains(e.0) && skip_map_entries(*m)[e.0] == e.1
                && e.0 < key && (forall|j: u64| #[trigger]
                skip_map_entries(*m).dom().contains(j) && j < key ==> j <= e.0),
            None => forall|j: u64| #[trigger] skip_map_entries(*m).dom().contains(j) ==> key <= j,
        },
{
    m.get(&key).and_then(|entry| entry.prev()).map(|entry| (*entry.key(), *entry.value()))
}

/// In ascending order.
pub open spec fn ascending(s: Seq<u64>) -> bool {
    forall|i: int, j: int| 0 <= i <= j < s.len() ==> s[i] <= s[j]
}

/// `slice::sort`: the same numbers, in ascending order.
#[verifier::external_body]
pub(crate) fn sort_u64(v: &mut Vec<u64>)
    ensures
        ascending(final(v)@),
        final(v)@.to_multiset() == old(v)@.to_multiset(),
{
    v.sort();
}

} // verus!
