//! The caches of listings, kept by `lru`.
use vstd::prelude::*;
use lru::LruCache;
use std::num::NonZeroUsize;
use crate::decode_attribut::{records, FileAttributes, FileRecord};
use crate::filesystem::{copy_entries, named_attrs, BackupPCFileAttribute, NamedAttr};
use crate::view::copy_listing;

verus! {

/// `lru::LruCache`, a cache that holds a limited number of entries and lets
/// the entry go that was used longest ago. Nothing inside it is seen here.
#[verifier::external_type_specification]
#[verifier::external_body]
#[verifier::reject_recursive_types(K)]
#[verifier::reject_recursive_types(V)]
#[verifier::reject_recursive_types(S)]
pub struct ExLruCache<K, V, S>(LruCache<K, V, S>);

/// `lru::DefaultHasher`, by which a cache made with `LruCache::new` hashes
/// its keys. Nothing inside it is seen here.
#[verifier::external_type_specification]
#[verifier::external_body]
pub struct ExDefaultHasher(lru::DefaultHasher);

/// A cache of listings, each under the key of its directory.
pub type ListingCache = LruCache<String, Vec<FileAttributes>>;

/// One entry of a cache of listings: the key and the listing.
pub type ListingEntry = (Seq<char>, Seq<FileRecord>);

/// What a cache of listings holds, the entry used last first.
pub uninterp spec fn listing_cache_entries(c: LruCache<String, Vec<FileAttributes>>) -> Seq<
    (Seq<char>, Seq<FileRecord>),
>;

/// The number of entries that a cache of listings was made for.
pub uninterp spec fn listing_cache_limit(c: LruCache<String, Vec<FileAttributes>>) -> nat;

/// The index of the first entry under `key`; the number of entries where
/// there is none.
pub open spec fn key_index<K, V>(entries: Seq<(K, V)>, key: K) -> int
    decreases entries.len(),
{
    if entries.len() == 0 {
        0
    } else if entries[0].0 == key {
        0
    } else {
        1 + key_index(entries.skip(1), key)
    }
}

/// The value that the entries hold under `key`.
pub open spec fn lookup<K, V>(entries: Seq<(K, V)>, key: K) -> Option<V> {
    if 0 <= key_index(entries, key) < entries.len() {
        Some(entries[key_index(entries, key)].1)
    } else {
        None
    }
}

/// The entries once the `i`-th has been used: it stands first.
pub open spec fn touched<K, V>(entries: Seq<(K, V)>, i: int) -> Seq<(K, V)> {
    seq![entries[i]] + entries.remove(i)
}

/// The entries once `value` has been put under `key`: the new entry stands
/// first, in place of an entry under the same key if there was one; if there
/// was none and the cache is full, the entry used longest ago leaves.
pub open spec fn after_put<K, V>(entries: Seq<(K, V)>, limit: nat, key: K, value: V) -> Seq<
    (K, V),
> {
    if 0 <= key_index(entries, key) < entries.len() {
        seq![(key, value)] + entries.remove(key_index(entries, key))
    } else if entries.len() == limit {
        seq![(key, value)] + entries.drop_last()
    } else {
        seq![(key, value)] + entries
    }
}

/// `lru::LruCache::new` makes an empty cache for at most `limit` entries.
#[verifier::external_body]
pub(crate) fn listing_cache_new(limit: usize) -> (c: ListingCache)
    requires
        limit > 0,
    ensures
        listing_cache_entries(c) == Seq::<ListingEntry>::empty(),
        listing_cache_limit(c) == limit,
{
    LruCache::new(NonZeroUsize::new(limit).unwrap())
}

/// `lru::LruCache::get` finds the entry under a key, marks it as the one
/// used last, and gives its value; here a copy of the value, made by
/// `copy_listing`.
#[verifier::external_body]
pub(crate) fn listing_cache_get(c: &mut ListingCache, key: &str) -> (r: Option<Vec<FileAttributes>>)
    ensures
        listing_cache_limit(*final(c)) == listing_cache_limit(*old(c)),
        match lookup(listing_cache_entries(*old(c)), key@) {
            Some(listing) => r matches Some(v) && records(v@) == listing && listing_cache_entries(
                *final(c),
            ) == touched(
                listing_cache_entries(*old(c)),
                key_index(listing_cache_entries(*old(c)), key@),
            ),
            None => r is None && listing_cache_entries(*final(c)) == listing_cache_entries(
                *old(c),
            ),
        },
{
    c.get(key).map(|listing| copy_listing(listing))
}

/// `lru::LruCache::put` stores a value under a key as the entry used last.
/// It replaces the value of an entry under the same key; otherwise, in a
/// full cache, the entry used longest ago leaves.
#[verifier::external_body]
pub(crate) fn listing_cache_put(c: &mut ListingCache, key: String, value: Vec<FileAttributes>)
    ensures
        listing_cache_limit(*final(c)) == listing_cache_limit(*old(c)),
        listing_cache_entries(*final(c)) == after_put(
            listing_cache_entries(*old(c)),
            listing_cache_limit(*old(c)),
            key@,
            records(value@),
        ),
{
    c.put(key, value);
}

/// Whether `holds` is true of every entry.
pub open spec fn every<K, V>(entries: Seq<(K, V)>, holds: spec_fn((K, V)) -> bool) -> bool {
    forall|i: int| 0 <= i < entries.len() ==> holds(#[trigger] entries[i])
}

/// What is true of every entry stays true of every entry when one is used.
pub proof fn lemma_touched_keeps<K, V>(
    entries: Seq<(K, V)>,
    i: int,
    holds: spec_fn((K, V)) -> bool,
)
    requires
        every(entries, holds),
        0 <= i < entries.len(),
    ensures
        every(touched(entries, i), holds),
{
    let now = touched(entries, i);
    assert forall|k: int| 0 <= k < now.len() implies holds(#[trigger] now[k]) by {
        if k == 0 {
            assert(now[0] == entries[i]);
        } else if k - 1 < i {
            assert(now[k] == entries[k - 1]);
        } else {
            assert(now[k] == entries[k]);
        }
    }
}

/// What is true of every entry, and of the entry that is put, is true of
/// every entry afterwards.
pub proof fn lemma_put_keeps<K, V>(
    entries: Seq<(K, V)>,
    limit: nat,
    key: K,
    value: V,
    holds: spec_fn((K, V)) -> bool,
)
    requires
        every(entries, holds),
        holds((key, value)),
        limit > 0,
    ensures
        every(after_put(entries, limit, key, value), holds),
{
    let now = after_put(entries, limit, key, value);
    let i = key_index(entries, key);
    assert forall|k: int| 0 <= k < now.len() implies holds(#[trigger] now[k]) by {
        if k == 0 {
            assert(now[0] == (key, value));
        } else if 0 <= i < entries.len() {
            if k - 1 < i {
                assert(now[k] == entries[k - 1]);
            } else {
                assert(now[k] == entries[k]);
            }
        } else {
            assert(now[k] == entries[k - 1]);
        }
    }
}

/// The entry found under a key is an entry under that key.
pub proof fn lemma_key_index<K, V>(entries: Seq<(K, V)>, key: K)
    ensures
        0 <= key_index(entries, key) <= entries.len(),
        key_index(entries, key) < entries.len() ==> entries[key_index(entries, key)].0 == key,
    decreases entries.len(),
{
    if entries.len() > 0 && entries[0].0 != key {
        lemma_key_index(entries.skip(1), key);
    }
}

/// What was put under a key is found under it.
pub proof fn lemma_put_then_lookup<K, V>(entries: Seq<(K, V)>, limit: nat, key: K, value: V)
    ensures
        lookup(after_put(entries, limit, key, value), key) == Some(value),
{
    let now = after_put(entries, limit, key, value);
    assert(now[0] == (key, value));
    assert(key_index(now, key) == 0);
}

/// A cache of the entries of directories, each under the inode of its
/// directory.
pub type AttrCache = LruCache<u64, Vec<BackupPCFileAttribute>>;

/// One entry of a cache of directories: the inode and the entries.
pub type AttrEntry = (u64, Seq<NamedAttr>);

/// What a cache of directories holds, the entry used last first.
pub uninterp spec fn attr_cache_entries(c: LruCache<u64, Vec<BackupPCFileAttribute>>) -> Seq<
    (u64, Seq<NamedAttr>),
>;

/// The number of entries that a cache of directories was made for.
pub uninterp spec fn attr_cache_limit(c: LruCache<u64, Vec<BackupPCFileAttribute>>) -> nat;

/// `lru::LruCache::new` makes an empty cache for at most `limit` entries.
#[verifier::external_body]
pub(crate) fn attr_cache_new(limit: usize) -> (c: AttrCache)
    requires
        limit > 0,
    ensures
        attr_cache_entries(c) == Seq::<AttrEntry>::empty(),
        attr_cache_limit(c) == limit,
{
    LruCache::new(NonZeroUsize::new(limit).unwrap())
}

/// `lru::LruCache::get` finds the entry under a key, marks it as the one
/// used last, and gives its value; here a copy of the value, made by
/// `copy_entries`.
#[verifier::external_body]
pub(crate) fn attr_cache_get(c: &mut AttrCache, ino: u64) -> (r: Option<Vec<BackupPCFileAttribute>>)
    ensures
        attr_cache_limit(*final(c)) == attr_cache_limit(*old(c)),
        match lookup(attr_cache_entries(*old(c)), ino) {
            Some(entries) => r matches Some(v) && named_attrs(v@) == entries && attr_cache_entries(
                *final(c),
            ) == touched(attr_cache_entries(*old(c)), key_index(attr_cache_entries(*old(c)), ino)),
            None => r is None && attr_cache_entries(*final(c)) == attr_cache_entries(*old(c)),
        },
{
    c.get(&ino).map(|entries| copy_entries(entries))
}

/// `lru::LruCache::put` stores a value under a key as the entry used last.
/// It replaces the value of an entry under the same key; otherwise, in a
/// full cache, the entry used longest ago leaves.
#[verifier::external_body]
pub(crate) fn attr_cache_put(c: &mut AttrCache, ino: u64, value: Vec<BackupPCFileAttribute>)
    ensures
        attr_cache_limit(*final(c)) == attr_cache_limit(*old(c)),
        attr_cache_entries(*final(c)) == after_put(
            attr_cache_entries(*old(c)),
            attr_cache_limit(*old(c)),
            ino,
            named_attrs(value@),
        ),
{
    c.put(ino, value);
}

} // verus!
