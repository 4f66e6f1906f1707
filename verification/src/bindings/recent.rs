//! The `lru` crate: a map of bounded size that forgets its least recently used key.

use lru::LruCache;
use std::num::NonZeroUsize;
use vstd::prelude::*;

verus! {

/// The cache of the `lru` crate.
#[verifier::external_type_specification]
#[verifier::external_body]
#[verifier::reject_recursive_types(K)]
#[verifier::reject_recursive_types(V)]
#[verifier::reject_recursive_types(S)]
pub struct ExLruCache<K, V, S>(lru::LruCache<K, V, S>);

/// The hasher that the cache uses by default.
#[verifier::external_type_specification]
#[verifier::external_body]
pub struct ExDefaultHasher(lru::DefaultHasher);

/// What a cache holds: key, time stamp and body of each entry, the most recently used first.
pub uninterp spec fn entries(c: LruCache<String, (u64, String)>) -> Seq<
    (Seq<char>, u64, Seq<char>),
>;

/// How many entries a cache may hold.
pub uninterp spec fn capacity(c: LruCache<String, (u64, String)>) -> nat;

/// The entries but those of `key`.
pub open spec fn without(e: Seq<(Seq<char>, u64, Seq<char>)>, key: Seq<char>) -> Seq<
    (Seq<char>, u64, Seq<char>),
>
    decreases e.len(),
{
    if e.len() == 0 {
        e
    } else if e.last().0 == key {
        without(e.drop_last(), key)
    } else {
        without(e.drop_last(), key).push(e.last())
    }
}

/// Time stamp and body of the entry of `key`, if there is one.
pub open spec fn lookup(e: Seq<(Seq<char>, u64, Seq<char>)>, key: Seq<char>) -> Option<
    (u64, Seq<char>),
>
    decreases e.len(),
{
    if e.len() == 0 {
        None
    } else if e.last().0 == key {
        Some((e.last().1, e.last().2))
    } else {
        lookup(e.drop_last(), key)
    }
}

/// `LruCache::new`: an empty cache of the given size. A size of zero is no size, and one that
/// the table could not be allocated for is left out.
#[verifier::external_body]
pub(crate) fn new(cap: usize) -> (r: LruCache<String, (u64, String)>)
    requires
        0 < cap <= 65536,
    ensures
        entries(r) == Seq::<(Seq<char>, u64, Seq<char>)>::empty(),
        capacity(r) == cap,
{
    LruCache::new(NonZeroUsize::new(cap).unwrap())
}

/// `LruCache::len`: the number of entries.
#[verifier::external_body]
pub(crate) fn len(c: &LruCache<String, (u64, String)>) -> (r: usize)
    ensures
        r == entries(*c).len(),
{
    c.len()
}

/// `LruCache::peek`: the value of a key, without touching the order.
#[verifier::external_body]
pub(crate) fn peek(c: &LruCache<String, (u64, String)>, key: &str) -> (r: Option<(u64, String)>)
    ensures
        match r {
            Some(v) => lookup(entries(*c), key@) == Some((v.0, v.1@)),
            None => lookup(entries(*c), key@) is None,
        },
{
    c.peek(key).cloned()
}

/// `LruCache::get`: the value of a key, whose entry becomes the most recently used.
#[verifier::external_body]
pub(crate) fn get(c: &mut LruCache<String, (u64, String)>, key: &str) -> (r: Option<(u64, String)>)
    ensures
        capacity(*final(c)) == capacity(*old(c)),
        match r {
            Some(v) => {
                &&& lookup(entries(*old(c)), key@) == Some((v.0, v.1@))
                &&& entries(*final(c)) == seq![(key@, v.0, v.1@)] + without(
                    entries(*old(c)),
                    key@,
                )
            },
            None => {
                &&& lookup(entries(*old(c)), key@) is None
                &&& entries(*final(c)) == entries(*old(c))
            },
        },
{
    c.get(key).cloned()
}

/// `LruCache::put`: the entry of the key, new or changed, becomes the most recently used; where
/// it is one too many, the least recently used is dropped.
#[verifier::external_body]
pub(crate) fn put(c: &mut LruCache<String, (u64, String)>, key: String, stamp: u64, body: String)
    ensures
        capacity(*final(c)) == capacity(*old(c)),
        entries(*final(c)) == {
            let all = seq![(key@, stamp, body@)] + without(entries(*old(c)), key@);
            if all.len() > capacity(*old(c)) {
                all.drop_last()
            } else {
                all
            }
        },
{
    c.put(key, (stamp, body));
}

/// `LruCache::pop`: the entry of the key is removed.
#[verifier::external_body]
pub(crate) fn pop(c: &mut LruCache<String, (u64, String)>, key: &str)
    ensures
        capacity(*final(c)) == capacity(*old(c)),
        entries(*final(c)) == without(entries(*old(c)), key@),
{
    c.pop(key);
}

/// `LruCache::clear`: every entry is removed.
#[verifier::external_body]
pub(crate) fn clear(c: &mut LruCache<String, (u64, String)>)
    ensures
        capacity(*final(c)) == capacity(*old(c)),
        entries(*final(c)) == Seq::<(Seq<char>, u64, Seq<char>)>::empty(),
{
    c.clear();
}

/// Key, time stamp and body of each item of a list.
pub open spec fn items(v: Seq<(String, (u64, String))>) -> Seq<(Seq<char>, u64, Seq<char>)> {
    Seq::new(v.len(), |i: int| (v[i].0@, v[i].1.0, v[i].1.1@))
}

/// `LruCache::into_iter`: every entry, the least recently used first.
#[verifier::external_body]
pub(crate) fn into_items(c: LruCache<String, (u64, String)>) -> (r: Vec<(String, (u64, String))>)
    ensures
        items(r@) == entries(c).reverse(),
{
    c.into_iter().collect()
}

} // verus!
