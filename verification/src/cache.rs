//! The bounded result cache: an `lru::LruCache` from a text to the matches
//! found in it.

use vstd::prelude::*;
use lru::LruCache;
use crate::text::views;

verus! {

#[verifier::external_type_specification]
#[verifier::external_body]
#[verifier::reject_recursive_types(K)]
#[verifier::reject_recursive_types(V)]
#[verifier::reject_recursive_types(S)]
pub struct ExLruCache<K, V, S>(LruCache<K, V, S>);

#[verifier::external_type_specification]
#[verifier::external_body]
pub struct ExDefaultHashBuilder(hashbrown::DefaultHashBuilder);

/// The entries of a cache, most recently used first.
pub uninterp spec fn cache_entries(c: LruCache<String, Vec<String>>) -> Seq<
    (Seq<char>, Seq<Seq<char>>),
>;

/// The number of entries a cache was created to hold at most.
pub uninterp spec fn cache_limit(c: LruCache<String, Vec<String>>) -> nat;

/// Position of the entry for `key`, searching from position `from` on.
pub open spec fn position_of(
    entries: Seq<(Seq<char>, Seq<Seq<char>>)>,
    key: Seq<char>,
    from: int,
) -> Option<int>
    decreases entries.len() - from,
{
    if from < 0 || from >= entries.len() {
        None
    } else if entries[from].0 == key {
        Some(from)
    } else {
        position_of(entries, key, from + 1)
    }
}

/// The value cached for `key`.
pub open spec fn cached(entries: Seq<(Seq<char>, Seq<Seq<char>>)>, key: Seq<char>) -> Option<
    Seq<Seq<char>>,
> {
    match position_of(entries, key, 0) {
        Some(i) => Some(entries[i].1),
        None => None,
    }
}

/// The entries after a lookup of `key`: a hit moves the entry to the front.
pub open spec fn after_get(entries: Seq<(Seq<char>, Seq<Seq<char>>)>, key: Seq<char>) -> Seq<
    (Seq<char>, Seq<Seq<char>>),
> {
    match position_of(entries, key, 0) {
        Some(i) => seq![entries[i]] + entries.remove(i),
        None => entries,
    }
}

/// The entries after `key` has been stored with `value`: the entry goes to
/// the front, replacing an older entry for the key; when the key is new and
/// the cache is full, the least recently used entry leaves.
pub open spec fn after_put(
    entries: Seq<(Seq<char>, Seq<Seq<char>>)>,
    limit: nat,
    key: Seq<char>,
    value: Seq<Seq<char>>,
) -> Seq<(Seq<char>, Seq<Seq<char>>)> {
    match position_of(entries, key, 0) {
        Some(i) => seq![(key, value)] + entries.remove(i),
        None => if entries.len() > 0 && entries.len() >= limit {
            seq![(key, value)] + entries.drop_last()
        } else {
            seq![(key, value)] + entries
        },
    }
}

/// `LruCache::new` creates an empty cache that holds at most `limit`
/// entries. The limit is handed over as a `NonZeroUsize`, so it must not be
/// zero, and room for that many entries is reserved at once, so it must not
/// be beyond what can be allocated.
#[verifier::external_body]
pub(crate) fn cache_new(limit: usize) -> (c: LruCache<String, Vec<String>>)
    requires
        0 < limit <= 1_000_000,
    ensures
        cache_entries(c).len() == 0,
        cache_limit(c) == limit,
{
    LruCache::new(core::num::NonZeroUsize::new(limit).unwrap())
}

/// `LruCache::get` returns the value stored for the key and marks the entry
/// as the most recently used; the value is copied out.
#[verifier::external_body]
pub(crate) fn cache_get(c: &mut LruCache<String, Vec<String>>, key: &str) -> (r: Option<
    Vec<String>,
>)
    ensures
        match r {
            Some(v) => cached(cache_entries(*old(c)), key@) == Some(views(v@)),
            None => cached(cache_entries(*old(c)), key@) is None,
        },
        cache_entries(*final(c)) == after_get(cache_entries(*old(c)), key@),
        cache_limit(*final(c)) == cache_limit(*old(c)),
{
    c.get(key).cloned()
}

/// `LruCache::put` stores the value for the key as the most recently used
/// entry. A full cache first drops its least recently used entry, unless the
/// key was already present.
#[verifier::external_body]
pub(crate) fn cache_put(c: &mut LruCache<String, Vec<String>>, key: String, value: Vec<String>)
    ensures
        cache_entries(*final(c)) == after_put(
            cache_entries(*old(c)),
            cache_limit(*old(c)),
            key@,
            views(value@),
        ),
        cache_limit(*final(c)) == cache_limit(*old(c)),
{
    c.put(key, value);
}

/// `LruCache::clear` removes every entry and keeps the limit.
#[verifier::external_body]
pub(crate) fn cache_clear(c: &mut LruCache<String, Vec<String>>)
    ensures
        cache_entries(*final(c)).len() == 0,
        cache_limit(*final(c)) == cache_limit(*old(c)),
{
    c.clear();
}

} // verus!
