//! The bounded cache of listings, and what is known of it.
//!
//! The cache is an `lru_cache::LruCache` from the id of a folder to the ids of the
//! entries listed in it, in their order. What it holds is spoken of as a sequence of
//! pairs, from the least recently used pair to the most recently used one.

use lru_cache::LruCache;
use std::hash::BuildHasher;
use std::hash::Hash;
use vstd::prelude::*;

verus! {

/// The type `LruCache` of the crate `lru_cache`. Nothing is known of what is inside a
/// value of it but what `lru_entries` and `lru_capacity` name.
#[verifier::external_type_specification]
#[verifier::external_body]
#[verifier::reject_recursive_types(K)]
#[verifier::reject_recursive_types(V)]
#[verifier::reject_recursive_types(S)]
pub struct ExLruCache<K: Eq + Hash, V, S: BuildHasher>(LruCache<K, V, S>);

/// The pairs that a cache holds, in the order in which `LruCache::iter` walks them: from
/// the least recently used to the most recently used.
pub uninterp spec fn lru_entries(cache: LruCache<u64, Vec<u64>>) -> Seq<(u64, Seq<u64>)>;

/// The number of pairs that a cache was made to hold: its `capacity`.
pub uninterp spec fn lru_capacity(cache: LruCache<u64, Vec<u64>>) -> nat;

/// The listing kept under `key`, if there is one.
pub open spec fn cached(entries: Seq<(u64, Seq<u64>)>, key: u64) -> Option<Seq<u64>>
    decreases entries.len(),
{
    if entries.len() == 0 {
        None
    } else if entries.last().0 == key {
        Some(entries.last().1)
    } else {
        cached(entries.drop_last(), key)
    }
}

/// `entries` without the pairs of `key`.
pub open spec fn without_key(entries: Seq<(u64, Seq<u64>)>, key: u64) -> Seq<(u64, Seq<u64>)>
    decreases entries.len(),
{
    if entries.len() == 0 {
        Seq::empty()
    } else if entries.last().0 == key {
        without_key(entries.drop_last(), key)
    } else {
        without_key(entries.drop_last(), key).push(entries.last())
    }
}

/// `entries` after `key` was used with `ids`: the pair is the most recently used one.
pub open spec fn touched(entries: Seq<(u64, Seq<u64>)>, key: u64, ids: Seq<u64>) -> Seq<
    (u64, Seq<u64>),
> {
    without_key(entries, key).push((key, ids))
}

/// `entries`, without the least recently used pair where there are more than `capacity`.
pub open spec fn bounded(entries: Seq<(u64, Seq<u64>)>, capacity: nat) -> Seq<(u64, Seq<u64>)> {
    if entries.len() > capacity {
        entries.drop_first()
    } else {
        entries
    }
}

/// No key has two pairs.
pub open spec fn distinct_keys(entries: Seq<(u64, Seq<u64>)>) -> bool {
    forall|i: int, j: int|
        0 <= i < j < entries.len() ==> (#[trigger] entries[i]).0 != (#[trigger] entries[j]).0
}

/// `LruCache::new` makes an empty cache of the capacity given.
#[verifier::external_body]
pub(crate) fn lru_new(capacity: usize) -> (cache: LruCache<u64, Vec<u64>>)
    ensures
        lru_entries(cache) == Seq::<(u64, Seq<u64>)>::empty(),
        lru_capacity(cache) == capacity,
{
    LruCache::new(capacity)
}

/// `LruCache::get_mut` finds the value of a key and makes the pair the most recently
/// used one; the value found is copied out. Where the key has no pair nothing changes.
#[verifier::external_body]
pub(crate) fn lru_get(cache: &mut LruCache<u64, Vec<u64>>, key: u64) -> (found: Option<Vec<u64>>)
    ensures
        lru_capacity(*final(cache)) == lru_capacity(*old(cache)),
        match cached(lru_entries(*old(cache)), key) {
            Some(ids) => found matches Some(copy) && copy@ == ids && lru_entries(*final(cache))
                == touched(lru_entries(*old(cache)), key, ids),
            None => found is None && lru_entries(*final(cache)) == lru_entries(*old(cache)),
        },
{
    cache.get_mut(&key).map(|ids| ids.clone())
}

/// `LruCache::insert` puts the pair in as the most recently used one, in place of the
/// pair that the key had, if any; where the cache then holds more pairs than its
/// capacity, the least recently used pair leaves.
#[verifier::external_body]
pub(crate) fn lru_insert(cache: &mut LruCache<u64, Vec<u64>>, key: u64, ids: Vec<u64>)
    ensures
        lru_capacity(*final(cache)) == lru_capacity(*old(cache)),
        lru_entries(*final(cache)) == bounded(
            touched(lru_entries(*old(cache)), key, ids@),
            lru_capacity(*old(cache)),
        ),
{
    cache.insert(key, ids);
}

/// What is left without a key came from the pairs of other keys, in their order.
pub proof fn lemma_without_key(entries: Seq<(u64, Seq<u64>)>, key: u64)
    ensures
        without_key(entries, key).len() <= entries.len(),
        forall|i: int|
            0 <= i < without_key(entries, key).len() ==> {
                let pair = #[trigger] without_key(entries, key)[i];
                pair.0 != key && entries.contains(pair)
            },
        forall|other: u64|
            other != key ==> cached(without_key(entries, key), other) == cached(entries, other),
        cached(without_key(entries, key), key) is None,
        distinct_keys(entries) ==> distinct_keys(without_key(entries, key)),
        distinct_keys(entries) && cached(entries, key) is Some ==> without_key(entries, key).len() + 1
            == entries.len(),
    decreases entries.len(),
{
    if entries.len() > 0 {
        let front = entries.drop_last();
        let last = entries.last();
        lemma_without_key(front, key);
        let kept = without_key(front, key);
        assert(kept.push(last).drop_last() =~= kept);
        assert forall|other: u64| other != key implies cached(without_key(entries, key), other)
            == cached(entries, other) by {
            assert(cached(without_key(front, key), other) == cached(front, other));
        }
        assert forall|i: int| 0 <= i < without_key(entries, key).len() implies {
            let pair = #[trigger] without_key(entries, key)[i];
            pair.0 != key && entries.contains(pair)
        } by {
            let pair = without_key(entries, key)[i];
            if i < kept.len() {
                assert(front.contains(pair));
            } else {
                assert(pair == last);
            }
        }
        if distinct_keys(entries) && last.0 == key {
            lemma_cached(front, key);
            lemma_without_absent_key(front, key);
        }
    }
}

/// A key has a listing exactly where it has a pair, and the listing is that of a pair.
pub proof fn lemma_cached(entries: Seq<(u64, Seq<u64>)>, key: u64)
    ensures
        cached(entries, key) is Some <==> exists|i: int|
            0 <= i < entries.len() && (#[trigger] entries[i]).0 == key,
        cached(entries, key) matches Some(ids) ==> entries.contains((key, ids)),
    decreases entries.len(),
{
    if entries.len() > 0 {
        let front = entries.drop_last();
        lemma_cached(front, key);
        if entries.last().0 != key && exists|i: int|
            0 <= i < entries.len() && (#[trigger] entries[i]).0 == key {
            let at = choose|at: int| 0 <= at < entries.len() && (#[trigger] entries[at]).0 == key;
            assert(front[at].0 == key);
        }
    }
}

/// Taking out a key that has no pair changes nothing.
proof fn lemma_without_absent_key(entries: Seq<(u64, Seq<u64>)>, key: u64)
    requires
        cached(entries, key) is None,
    ensures
        without_key(entries, key) == entries,
    decreases entries.len(),
{
    if entries.len() > 0 {
        lemma_without_absent_key(entries.drop_last(), key);
    }
}

/// Among pairs of different keys, the listing of a key is that of its one pair.
pub proof fn lemma_cached_pair(entries: Seq<(u64, Seq<u64>)>, at: int)
    requires
        distinct_keys(entries),
        0 <= at < entries.len(),
    ensures
        cached(entries, entries[at].0) == Some(entries[at].1),
    decreases entries.len(),
{
    if at < entries.len() - 1 {
        let front = entries.drop_last();
        lemma_cached_pair(front, at);
    }
}

/// After a key was used, its listing is the one it was used with and the other keys
/// have the listings they had; no pair has been added but that of the key.
pub proof fn lemma_touched(entries: Seq<(u64, Seq<u64>)>, key: u64, ids: Seq<u64>)
    requires
        distinct_keys(entries),
    ensures
        distinct_keys(touched(entries, key, ids)),
        touched(entries, key, ids).len() <= entries.len() + 1,
        cached(entries, key) is Some ==> touched(entries, key, ids).len() == entries.len(),
        cached(touched(entries, key, ids), key) == Some(ids),
        forall|other: u64|
            other != key ==> cached(touched(entries, key, ids), other) == cached(entries, other),
        forall|i: int|
            0 <= i < touched(entries, key, ids).len() ==> {
                let pair = #[trigger] touched(entries, key, ids)[i];
                pair == (key, ids) || (pair.0 != key && entries.contains(pair))
            },
{
    lemma_without_key(entries, key);
    let kept = without_key(entries, key);
    let result = touched(entries, key, ids);
    assert(result.drop_last() =~= kept);
    assert forall|i: int| 0 <= i < result.len() implies {
        let pair = #[trigger] result[i];
        pair == (key, ids) || (pair.0 != key && entries.contains(pair))
    } by {
        if i < kept.len() {
            assert(result[i] == kept[i]);
        }
    }
}

/// A cache that is kept within its capacity loses at most its least recently used
/// pair; the keys that stay have the listings they had.
pub proof fn lemma_bounded(entries: Seq<(u64, Seq<u64>)>, capacity: nat)
    requires
        distinct_keys(entries),
        entries.len() <= capacity + 1,
    ensures
        distinct_keys(bounded(entries, capacity)),
        bounded(entries, capacity).len() <= capacity,
        forall|key: u64|
            cached(bounded(entries, capacity), key) is Some ==> cached(
                bounded(entries, capacity),
                key,
            ) == cached(entries, key),
        forall|i: int|
            0 <= i < bounded(entries, capacity).len() ==> entries.contains(
                #[trigger] bounded(entries, capacity)[i],
            ),
{
    let result = bounded(entries, capacity);
    if entries.len() > capacity {
        assert forall|key: u64| cached(result, key) is Some implies cached(result, key) == cached(
            entries,
            key,
        ) by {
            lemma_cached(result, key);
            let at = choose|at: int| 0 <= at < result.len() && (#[trigger] result[at]).0 == key;
            lemma_cached_pair(entries, at + 1);
        }
    }
}

} // verus!
