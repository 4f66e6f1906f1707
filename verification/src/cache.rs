//! The cache: an in-memory map that forgets its least recently used entry, backed by the
//! entries of a file. An entry lives for an hour.
//!
//! What is cached is a text, the serialized answer. The clock is read by the caller.

use crate::bindings::recent;
use crate::text;
use lru::LruCache;
use vstd::prelude::*;

verus! {

/// How many entries are kept.
pub const CAP: usize = 200;

/// How long an entry lives, in seconds.
pub const TTL_SECS: u64 = 3600;

// ── Keys ────────────────────────────────────────────────────────────────────

/// The text of an optional text, which is empty if there is none.
pub open spec fn or_empty(s: Option<&str>) -> Seq<char> {
    match s {
        Some(t) => t@,
        None => seq![],
    }
}

/// How a truth value is written.
pub open spec fn shown_bool(b: bool) -> Seq<char> {
    if b {
        "true"@
    } else {
        "false"@
    }
}

/// The key of a plain request.
pub open spec fn plain_key(url: Seq<char>, focus: Seq<char>, max_chars: nat) -> Seq<char> {
    url + "|"@ + focus + "|"@ + text::decimal(max_chars)
}

/// The key of a request with every option.
pub open spec fn full_key(
    url: Seq<char>,
    focus: Seq<char>,
    max_chars: nat,
    offset: nat,
    include_media: bool,
    pages: Seq<char>,
    actions_len: nat,
) -> Seq<char> {
    url + "|"@ + focus + "|"@ + text::decimal(max_chars) + "|"@ + text::decimal(offset) + "|"@
        + shown_bool(include_media) + "|"@ + pages + "|"@ + text::decimal(actions_len)
}

/// The key of a plain request.
pub fn cache_key(url: &str, focus: Option<&str>, max_chars: usize) -> (r: String)
    ensures
        r@ == plain_key(url@, or_empty(focus), max_chars as nat),
{
    let mut k = url.to_owned();
    k.append("|");
    if let Some(f) = focus {
        k.append(f);
    }
    k.append("|");
    k.append(text::show(max_chars).as_str());
    k
}

/// The key of a request with every option, so that pages of a long text and runs of browser
/// actions do not collide.
pub fn cache_key_ext(
    url: &str,
    focus: Option<&str>,
    max_chars: usize,
    offset: Option<usize>,
    include_media: bool,
    pages: Option<&str>,
    actions_len: usize,
) -> (r: String)
    ensures
        r@ == full_key(
            url@,
            or_empty(focus),
            max_chars as nat,
            match offset {
                Some(o) => o as nat,
                None => 0,
            },
            include_media,
            or_empty(pages),
            actions_len as nat,
        ),
{
    let start: usize = match offset {
        Some(o) => o,
        None => 0,
    };
    let mut k = url.to_owned();
    k.append("|");
    if let Some(f) = focus {
        k.append(f);
    }
    k.append("|");
    k.append(text::show(max_chars).as_str());
    k.append("|");
    k.append(text::show(start).as_str());
    k.append("|");
    if include_media {
        k.append("true");
    } else {
        k.append("false");
    }
    k.append("|");
    if let Some(p) = pages {
        k.append(p);
    }
    k.append("|");
    k.append(text::show(actions_len).as_str());
    k
}

// ── Entries ─────────────────────────────────────────────────────────────────

/// An entry that was made less than an hour ago, or, by another clock, in the future. Stamps
/// count seconds.
pub open spec fn fresh(stamp: u64, now: u64) -> bool {
    now - stamp < TTL_SECS
}

/// Whether an entry was made less than an hour ago.
pub fn is_fresh(stamp: u64, now: u64) -> (r: bool)
    ensures
        r == fresh(stamp, now),
{
    now < stamp || now - stamp < TTL_SECS
}

/// The body of the entry of `key`, if there is one that is fresh.
pub open spec fn found(
    e: Seq<(Seq<char>, u64, Seq<char>)>,
    key: Seq<char>,
    now: u64,
) -> Option<Seq<char>> {
    match recent::lookup(e, key) {
        Some((stamp, body)) => if fresh(stamp, now) {
            Some(body)
        } else {
            None
        },
        None => None,
    }
}

/// The entries after one was asked for: a fresh one comes first, an expired one is gone.
pub open spec fn touched(
    e: Seq<(Seq<char>, u64, Seq<char>)>,
    key: Seq<char>,
    now: u64,
) -> Seq<(Seq<char>, u64, Seq<char>)> {
    match recent::lookup(e, key) {
        Some((stamp, body)) => if fresh(stamp, now) {
            seq![(key, stamp, body)] + recent::without(e, key)
        } else {
            recent::without(e, key)
        },
        None => e,
    }
}

/// The entries after one was stored: it comes first, and the last one is dropped where there
/// is one too many.
pub open spec fn stored(
    e: Seq<(Seq<char>, u64, Seq<char>)>,
    cap: nat,
    key: Seq<char>,
    stamp: u64,
    body: Seq<char>,
) -> Seq<(Seq<char>, u64, Seq<char>)> {
    let all = seq![(key, stamp, body)] + recent::without(e, key);
    if all.len() > cap {
        all.drop_last()
    } else {
        all
    }
}

/// No key comes twice.
pub open spec fn keyed(e: Seq<(Seq<char>, u64, Seq<char>)>) -> bool {
    forall|i: int, j: int|
        0 <= i < j < e.len() ==> (#[trigger] e[i]).0 != (#[trigger] e[j]).0
}

/// Removing a key removes every entry of it and keeps the order of the others.
pub proof fn lemma_without(e: Seq<(Seq<char>, u64, Seq<char>)>, key: Seq<char>)
    requires
        keyed(e),
    ensures
        keyed(recent::without(e, key)),
        recent::without(e, key).len() <= e.len(),
        recent::lookup(e, key) is Some ==> recent::without(e, key).len() < e.len(),
        recent::lookup(e, key) is None ==> recent::without(e, key) == e,
        forall|i: int|
            0 <= i < recent::without(e, key).len() ==> (#[trigger] recent::without(e, key)[i]).0
                != key && e.contains(recent::without(e, key)[i]),
    decreases e.len(),
{
    if e.len() > 0 {
        let rest = e.drop_last();
        let kept = recent::without(rest, key);
        lemma_without(rest, key);
        let all = recent::without(e, key);
        assert forall|i: int| 0 <= i < all.len() implies (#[trigger] all[i]).0 != key && e.contains(
            all[i],
        ) by {
            if i < kept.len() {
                assert(all[i] == kept[i]);
                let k = rest.index_of(kept[i]);
                assert(e[k] == kept[i]);
            } else {
                assert(e[e.len() - 1] == all[i]);
            }
        }
        assert forall|i: int, j: int| 0 <= i < j < all.len() implies (#[trigger] all[i]).0 != (
        #[trigger] all[j]).0 by {
            assert(all[i] == kept[i]);
            if j < kept.len() {
                assert(all[j] == kept[j]);
            } else {
                let k = rest.index_of(kept[i]);
                assert(e[k] == all[i]);
                assert(e[e.len() - 1] == all[j]);
            }
        }
        if recent::lookup(e, key) is None {
            assert(all == e);
        }
    }
}

/// With an entry put in front, its key finds it and the others are found as before.
pub proof fn lemma_lookup_front(
    e: Seq<(Seq<char>, u64, Seq<char>)>,
    front: (Seq<char>, u64, Seq<char>),
    key: Seq<char>,
)
    ensures
        recent::lookup(seq![front] + e, key) == match recent::lookup(e, key) {
            Some(v) => Some(v),
            None => if key == front.0 {
                Some((front.1, front.2))
            } else {
                None
            },
        },
    decreases e.len(),
{
    let all = seq![front] + e;
    if e.len() == 0 {
        assert(all.drop_last() == Seq::<(Seq<char>, u64, Seq<char>)>::empty());
        reveal_with_fuel(recent::lookup, 2);
    } else {
        assert(all.drop_last() == seq![front] + e.drop_last());
        lemma_lookup_front(e.drop_last(), front, key);
    }
}

/// Removing a key hides it and no other.
pub proof fn lemma_lookup_without(
    e: Seq<(Seq<char>, u64, Seq<char>)>,
    gone: Seq<char>,
    key: Seq<char>,
)
    ensures
        recent::lookup(recent::without(e, gone), key) == if key == gone {
            None
        } else {
            recent::lookup(e, key)
        },
    decreases e.len(),
{
    if e.len() > 0 {
        lemma_lookup_without(e.drop_last(), gone, key);
        if e.last().0 != gone {
            assert(recent::without(e, gone).drop_last() == recent::without(e.drop_last(), gone));
        }
    }
}

/// Dropping the last entry hides its key and no other.
proof fn lemma_lookup_drop_last(e: Seq<(Seq<char>, u64, Seq<char>)>, key: Seq<char>)
    requires
        e.len() > 0,
        e.last().0 != key,
    ensures
        recent::lookup(e.drop_last(), key) == recent::lookup(e, key),
{
}

proof fn lemma_front_keyed(e: Seq<(Seq<char>, u64, Seq<char>)>, key: Seq<char>, stamp: u64, body: Seq<char>)
    requires
        keyed(e),
    ensures
        keyed(seq![(key, stamp, body)] + recent::without(e, key)),
{
    let rest = recent::without(e, key);
    let all = seq![(key, stamp, body)] + rest;
    lemma_without(e, key);
    assert forall|i: int, j: int| 0 <= i < j < all.len() implies (#[trigger] all[i]).0 != (
    #[trigger] all[j]).0 by {
        assert(all[j] == rest[j - 1]);
        if i > 0 {
            assert(all[i] == rest[i - 1]);
        }
    }
}

// ── The in-memory cache ─────────────────────────────────────────────────────

/// The in-memory cache.
pub struct PageCache {
    lru: LruCache<String, (u64, String)>,
}

impl View for PageCache {
    type V = Seq<(Seq<char>, u64, Seq<char>)>;

    /// Key, time stamp and body of each entry, the most recently used first.
    closed spec fn view(&self) -> Seq<(Seq<char>, u64, Seq<char>)> {
        recent::entries(self.lru)
    }
}

impl PageCache {
    /// How many entries the cache may hold.
    pub closed spec fn cap(&self) -> nat {
        recent::capacity(self.lru)
    }

    /// The cache holds no more than it may, and no key twice.
    pub open spec fn wf(&self) -> bool {
        &&& 0 < self.cap()
        &&& self@.len() <= self.cap()
        &&& keyed(self@)
    }

    /// An empty cache for `cap` entries.
    pub fn with_capacity(cap: usize) -> (r: PageCache)
        requires
            0 < cap <= 65536,
        ensures
            r.wf(),
            r.cap() == cap,
            r@ == Seq::<(Seq<char>, u64, Seq<char>)>::empty(),
    {
        PageCache { lru: recent::new(cap) }
    }

    /// An empty cache of the usual size.
    pub fn new() -> (r: PageCache)
        ensures
            r.wf(),
            r.cap() == CAP,
            r@ == Seq::<(Seq<char>, u64, Seq<char>)>::empty(),
    {
        PageCache::with_capacity(CAP)
    }

    /// How many entries there are.
    pub fn len(&self) -> (r: usize)
        ensures
            r == self@.len(),
    {
        recent::len(&self.lru)
    }

    /// The body of an entry, whatever its age, without touching the order.
    pub fn peek(&self, key: &str) -> (r: Option<String>)
        ensures
            match r {
                Some(b) => recent::lookup(self@, key@) matches Some(v) && v.1 == b@,
                None => recent::lookup(self@, key@) is None,
            },
    {
        match recent::peek(&self.lru, key) {
            Some((_, body)) => Some(body),
            None => None,
        }
    }

    /// Whether there is a fresh entry for `key`.
    pub fn holds(&self, key: &str, now: u64) -> (r: bool)
        ensures
            r == found(self@, key@, now) is Some,
    {
        match recent::peek(&self.lru, key) {
            Some((stamp, _)) => is_fresh(stamp, now),
            None => false,
        }
    }

    /// The body of a fresh entry, which becomes the most recently used. An expired entry is
    /// removed.
    pub fn get(&mut self, key: &str, now: u64) -> (r: Option<String>)
        requires
            old(self).wf(),
        ensures
            final(self).wf(),
            final(self).cap() == old(self).cap(),
            text::opt(r) == found(old(self)@, key@, now),
            final(self)@ == touched(old(self)@, key@, now),
    {
        proof {
            lemma_without(self@, key@);
        }
        match recent::peek(&self.lru, key) {
            Some((stamp, _)) => {
                if is_fresh(stamp, now) {
                    match recent::get(&mut self.lru, key) {
                        Some((t, body)) => {
                            proof {
                                lemma_front_keyed(old(self)@, key@, t, body@);
                            }
                            Some(body)
                        },
                        None => None,
                    }
                } else {
                    recent::pop(&mut self.lru, key);
                    None
                }
            },
            None => None,
        }
    }

    /// Stores a body, which becomes the most recently used entry.
    pub fn put(&mut self, key: String, body: String, now: u64)
        requires
            old(self).wf(),
        ensures
            final(self).wf(),
            final(self).cap() == old(self).cap(),
            final(self)@ == stored(old(self)@, old(self).cap(), key@, now, body@),
    {
        proof {
            lemma_without(self@, key@);
            lemma_front_keyed(self@, key@, now, body@);
        }
        recent::put(&mut self.lru, key, now, body);
    }

    /// Forgets everything.
    pub fn clear(&mut self)
        requires
            old(self).wf(),
        ensures
            final(self).wf(),
            final(self).cap() == old(self).cap(),
            final(self)@ == Seq::<(Seq<char>, u64, Seq<char>)>::empty(),
    {
        recent::clear(&mut self.lru);
    }
}

// ── The file ────────────────────────────────────────────────────────────────

/// The fresh ones of a list of entries, stored one after the other.
pub open spec fn refilled(e: Seq<(Seq<char>, u64, Seq<char>)>, now: u64) -> Seq<
    (Seq<char>, u64, Seq<char>),
>
    decreases e.len(),
{
    if e.len() == 0 {
        e
    } else {
        let rest = refilled(e.drop_last(), now);
        let (key, stamp, body) = e.last();
        if fresh(stamp, now) {
            stored(rest, CAP as nat, key, stamp, body)
        } else {
            rest
        }
    }
}

/// The entries of the file after one was added, the least recently used first.
pub open spec fn filed(
    file: Seq<(Seq<char>, u64, Seq<char>)>,
    key: Seq<char>,
    body: Seq<char>,
    now: u64,
) -> Seq<(Seq<char>, u64, Seq<char>)> {
    stored(refilled(file, now), CAP as nat, key, now, body).reverse()
}

/// Time stamp and body of a fresh entry among those of the file.
fn file_entry(file: &[(String, (u64, String))], key: &str, now: u64) -> (r: Option<(u64, String)>)
    ensures
        match r {
            Some(v) => fresh(v.0, now) && recent::lookup(recent::items(file@), key@) == Some(
                (v.0, v.1@),
            ),
            None => found(recent::items(file@), key@, now) is None,
        },
{
    let ghost all = recent::items(file@);
    let mut i: usize = file.len();
    assert(all.take(all.len() as int) == all);
    while i > 0
        invariant
            i <= file@.len(),
            all == recent::items(file@),
            recent::lookup(all, key@) == recent::lookup(all.take(i as int), key@),
        decreases i,
    {
        assert(all.take(i as int).drop_last() == all.take(i - 1));
        assert(all.take(i as int).last() == all[i - 1]);
        if text::same(file[i - 1].0.as_str(), key) {
            let stamp: u64 = file[i - 1].1.0;
            return if is_fresh(stamp, now) {
                Some((stamp, file[i - 1].1.1.clone()))
            } else {
                None
            };
        }
        i -= 1;
    }
    None
}

/// The body of a fresh entry among those of the file.
pub fn file_cache_get(file: &[(String, (u64, String))], key: &str, now: u64) -> (r: Option<String>)
    ensures
        text::opt(r) == found(recent::items(file@), key@, now),
{
    match file_entry(file, key, now) {
        Some((_, body)) => Some(body),
        None => None,
    }
}

/// The entries of the file with one added as the most recently used, without the expired ones
/// and without those that are too many.
pub fn file_cache_set(
    file: &[(String, (u64, String))],
    key: String,
    body: String,
    now: u64,
) -> (r: Vec<(String, (u64, String))>)
    ensures
        recent::items(r@) == filed(recent::items(file@), key@, body@, now),
{
    let ghost all = recent::items(file@);
    let mut lru = recent::new(CAP);
    let mut i: usize = 0;
    assert(all.take(0) == Seq::<(Seq<char>, u64, Seq<char>)>::empty());
    while i < file.len()
        invariant
            i <= file@.len(),
            all == recent::items(file@),
            recent::capacity(lru) == CAP,
            recent::entries(lru) == refilled(all.take(i as int), now),
        decreases file@.len() - i,
    {
        assert(all.take(i + 1).drop_last() == all.take(i as int));
        assert(all.take(i + 1).last() == all[i as int]);
        let stamp: u64 = file[i].1.0;
        if is_fresh(stamp, now) {
            recent::put(&mut lru, file[i].0.clone(), stamp, file[i].1.1.clone());
        }
        i += 1;
    }
    assert(all.take(i as int) == all);
    recent::put(&mut lru, key, now, body);
    recent::into_items(lru)
}

// ── Both together ───────────────────────────────────────────────────────────

/// What asking for `key` gives, and the entries in memory afterwards: what only the file has
/// is copied into memory, with the age that it has.
pub open spec fn got(
    e: Seq<(Seq<char>, u64, Seq<char>)>,
    cap: nat,
    file: Seq<(Seq<char>, u64, Seq<char>)>,
    key: Seq<char>,
    now: u64,
) -> (Option<Seq<char>>, Seq<(Seq<char>, u64, Seq<char>)>) {
    let after = touched(e, key, now);
    match found(e, key, now) {
        Some(body) => (Some(body), after),
        None => match found(file, key, now) {
            Some(body) => (
                Some(body),
                stored(after, cap, key, (recent::lookup(file, key)->0).0, body),
            ),
            None => (None, after),
        },
    }
}

/// The first hit for one of the keys, and the entries in memory afterwards.
pub open spec fn first_got(
    e: Seq<(Seq<char>, u64, Seq<char>)>,
    cap: nat,
    file: Seq<(Seq<char>, u64, Seq<char>)>,
    keys: Seq<Seq<char>>,
    now: u64,
) -> (Option<Seq<char>>, Seq<(Seq<char>, u64, Seq<char>)>)
    decreases keys.len(),
{
    if keys.len() == 0 {
        (None, e)
    } else {
        let g = got(e, cap, file, keys[0], now);
        if g.0 is Some {
            g
        } else {
            first_got(g.1, cap, file, keys.drop_first(), now)
        }
    }
}

/// What is cached under a key, in memory or else in the file.
pub fn cache_get(
    mem: &mut PageCache,
    file: &[(String, (u64, String))],
    key: &str,
    now: u64,
) -> (r: Option<String>)
    requires
        old(mem).wf(),
    ensures
        final(mem).wf(),
        final(mem).cap() == old(mem).cap(),
        (text::opt(r), final(mem)@) == got(
            old(mem)@,
            old(mem).cap(),
            recent::items(file@),
            key@,
            now,
        ),
{
    if let Some(body) = mem.get(key, now) {
        return Some(body);
    }
    match file_entry(file, key, now) {
        Some((stamp, body)) => {
            mem.put(key.to_owned(), body.clone(), stamp);
            Some(body)
        },
        None => None,
    }
}

/// The first hit for one of the keys.
pub fn recall(
    mem: &mut PageCache,
    file: &[(String, (u64, String))],
    keys: &[String],
    now: u64,
) -> (r: Option<String>)
    requires
        old(mem).wf(),
    ensures
        final(mem).wf(),
        final(mem).cap() == old(mem).cap(),
        (text::opt(r), final(mem)@) == first_got(
            old(mem)@,
            old(mem).cap(),
            recent::items(file@),
            text::views(keys@),
            now,
        ),
{
    let ghost all = text::views(keys@);
    let mut i: usize = 0;
    assert(all.skip(0) == all);
    while i < keys.len()
        invariant
            i <= keys@.len(),
            all == text::views(keys@),
            mem.wf(),
            mem.cap() == old(mem).cap(),
            first_got(old(mem)@, old(mem).cap(), recent::items(file@), all, now) == first_got(
                mem@,
                old(mem).cap(),
                recent::items(file@),
                all.skip(i as int),
                now,
            ),
        decreases keys@.len() - i,
    {
        assert(all.skip(i as int)[0] == all[i as int]);
        assert(all.skip(i as int).drop_first() == all.skip(i + 1));
        if let Some(body) = cache_get(mem, file, keys[i].as_str(), now) {
            return Some(body);
        }
        i += 1;
    }
    None
}

/// Stores a body in memory, and gives what the file is to hold from now on.
pub fn cache_set(
    mem: &mut PageCache,
    file: &[(String, (u64, String))],
    key: String,
    body: String,
    now: u64,
) -> (r: Vec<(String, (u64, String))>)
    requires
        old(mem).wf(),
    ensures
        final(mem).wf(),
        final(mem).cap() == old(mem).cap(),
        final(mem)@ == stored(old(mem)@, old(mem).cap(), key@, now, body@),
        recent::items(r@) == filed(recent::items(file@), key@, body@, now),
{
    mem.put(key.clone(), body.clone(), now);
    file_cache_set(file, key, body, now)
}

/// Forgets what is in memory. The file is to be removed.
pub fn cache_clear(mem: &mut PageCache)
    requires
        old(mem).wf(),
    ensures
        final(mem).wf(),
        final(mem).cap() == old(mem).cap(),
        final(mem)@ == Seq::<(Seq<char>, u64, Seq<char>)>::empty(),
{
    mem.clear();
}

// ── Laws ────────────────────────────────────────────────────────────────────

/// What was stored under a key is what asking for it gives, for an hour, whatever the file
/// holds.
pub proof fn memory_gives_back_what_was_stored(
    e: Seq<(Seq<char>, u64, Seq<char>)>,
    cap: nat,
    file: Seq<(Seq<char>, u64, Seq<char>)>,
    key: Seq<char>,
    body: Seq<char>,
    then: u64,
    now: u64,
)
    requires
        keyed(e),
        0 < cap,
        e.len() <= cap,
        fresh(then, now),
    ensures
        got(stored(e, cap, key, then, body), cap, file, key, now).0 == Some(body),
{
    lemma_front_found(e, cap, key, then, body);
}

/// What was written to the file under a key is what the file gives for it, for an hour, also
/// to a process whose memory is empty.
pub proof fn file_gives_back_what_was_stored(
    file: Seq<(Seq<char>, u64, Seq<char>)>,
    cap: nat,
    key: Seq<char>,
    body: Seq<char>,
    then: u64,
    now: u64,
)
    requires
        fresh(then, now),
    ensures
        got(seq![], cap, filed(file, key, body, then), key, now).0 == Some(body),
{
    let e = refilled(file, then);
    lemma_refilled(file, then);
    let rest = recent::without(e, key);
    let front = (key, then, body);
    lemma_without(e, key);
    let all = seq![front] + rest;
    let kept = stored(e, CAP as nat, key, then, body);
    assert(kept[0] == front);
    let back = kept.reverse();
    assert(back.last() == front);
}

/// Every entry of a refilled file is fresh, no key comes twice, and there are not too many.
proof fn lemma_refilled(file: Seq<(Seq<char>, u64, Seq<char>)>, now: u64)
    ensures
        keyed(refilled(file, now)),
        refilled(file, now).len() <= CAP,
        forall|i: int|
            0 <= i < refilled(file, now).len() ==> fresh((#[trigger] refilled(file, now)[i]).1, now),
    decreases file.len(),
{
    if file.len() > 0 {
        let rest = refilled(file.drop_last(), now);
        lemma_refilled(file.drop_last(), now);
        let (key, stamp, body) = file.last();
        if fresh(stamp, now) {
            lemma_without(rest, key);
            lemma_front_keyed(rest, key, stamp, body);
            let kept = recent::without(rest, key);
            let all = seq![(key, stamp, body)] + kept;
            let e = refilled(file, now);
            assert forall|i: int| 0 <= i < e.len() implies fresh((#[trigger] e[i]).1, now) by {
                assert(e[i] == all[i]);
                if i > 0 {
                    assert(all[i] == kept[i - 1]);
                    let k = rest.index_of(kept[i - 1]);
                    assert(fresh(rest[k].1, now));
                }
            }
        }
    }
}

/// An answer stored under two keys, one after the other, is found under the first of them too.
pub proof fn both_keys_give_back_what_was_stored(
    e: Seq<(Seq<char>, u64, Seq<char>)>,
    cap: nat,
    file: Seq<(Seq<char>, u64, Seq<char>)>,
    key: Seq<char>,
    other: Seq<char>,
    body: Seq<char>,
    then: u64,
    now: u64,
)
    requires
        keyed(e),
        1 < cap,
        e.len() <= cap,
        fresh(then, now),
    ensures
        ({
            let once = stored(e, cap, key, then, body);
            let twice = stored(once, cap, other, then, body);
            &&& got(twice, cap, file, key, now).0 == Some(body)
            &&& got(twice, cap, file, other, now).0 == Some(body)
        }),
{
    let t = then;
    let once = stored(e, cap, key, t, body);
    lemma_without(e, key);
    lemma_front_keyed(e, key, t, body);
    assert(keyed(once));
    memory_gives_back_what_was_stored(once, cap, file, other, body, then, now);
    if other != key {
        memory_gives_back_what_was_stored(e, cap, file, key, body, then, now);
        let rest = recent::without(once, other);
        let all = seq![(other, t, body)] + rest;
        lemma_without(once, other);
        lemma_without_front(once, other);
        lemma_lookup_without(once, other, key);
        lemma_lookup_front(rest, (other, t, body), key);
        lemma_front_found(e, cap, key, t, body);
        if all.len() > cap {
            assert(all.last() == rest.last());
            if rest.last().0 == key {
                assert(rest[rest.len() - 1].0 == rest[0].0);
            }
            lemma_lookup_drop_last(all, key);
        }
    }
}

/// What was just stored is found.
proof fn lemma_front_found(
    e: Seq<(Seq<char>, u64, Seq<char>)>,
    cap: nat,
    key: Seq<char>,
    stamp: u64,
    body: Seq<char>,
)
    requires
        keyed(e),
        0 < cap,
        e.len() <= cap,
    ensures
        recent::lookup(stored(e, cap, key, stamp, body), key) == Some((stamp, body)),
{
    let rest = recent::without(e, key);
    let all = seq![(key, stamp, body)] + rest;
    lemma_without(e, key);
    lemma_lookup_without(e, key, key);
    lemma_lookup_front(rest, (key, stamp, body), key);
    if all.len() > cap {
        assert(all.last() == rest.last());
        lemma_lookup_drop_last(all, key);
    }
}

/// The file never grows beyond the size of the cache, holds no key twice, and after each
/// write holds no expired entry.
pub proof fn file_stays_small(
    file: Seq<(Seq<char>, u64, Seq<char>)>,
    key: Seq<char>,
    body: Seq<char>,
    now: u64,
)
    ensures
        filed(file, key, body, now).len() <= CAP,
        keyed(filed(file, key, body, now)),
        forall|i: int|
            0 <= i < filed(file, key, body, now).len() ==> fresh((#[trigger] filed(file, key, body, now)[i]).1, now),
{
    let e = refilled(file, now);
    lemma_refilled(file, now);
    lemma_without(e, key);
    lemma_front_keyed(e, key, now, body);
    let kept = recent::without(e, key);
    let all = seq![(key, now, body)] + kept;
    let s = stored(e, CAP as nat, key, now, body);
    let r = filed(file, key, body, now);
    assert forall|i: int| 0 <= i < r.len() implies fresh((#[trigger] r[i]).1, now) by {
        let j = s.len() - 1 - i;
        assert(r[i] == all[j]);
        if j > 0 {
            assert(all[j] == kept[j - 1]);
            let k = e.index_of(kept[j - 1]);
            assert(fresh(e[k].1, now));
        }
    }
    assert forall|i: int, j: int| 0 <= i < j < r.len() implies (#[trigger] r[i]).0 != (
    #[trigger] r[j]).0 by {
        assert(r[i] == all[s.len() - 1 - i]);
        assert(r[j] == all[s.len() - 1 - j]);
    }
}

/// What memory holds of a key after another call of the cache was stored under it before, in
/// memory or in the file: no call makes an entry look younger than it is.
pub proof fn reading_renews_nothing(
    e: Seq<(Seq<char>, u64, Seq<char>)>,
    cap: nat,
    file: Seq<(Seq<char>, u64, Seq<char>)>,
    asked: Seq<char>,
    now: u64,
    key: Seq<char>,
)
    requires
        keyed(e),
    ensures
        recent::lookup(got(e, cap, file, asked, now).1, key) matches Some(v) ==> recent::lookup(
            e,
            key,
        ) == Some(v) || recent::lookup(file, key) == Some(v),
{
    let after = touched(e, asked, now);
    lemma_touched(e, asked, now, key);
    if found(e, asked, now) is None && found(file, asked, now) is Some {
        let (stamp, body) = recent::lookup(file, asked)->0;
        if asked == key {
            lemma_stored_lookup(after, cap, key, stamp, body);
        } else {
            storing_changes_no_other_entry(after, cap, asked, stamp, body, key);
        }
    }
}

/// Asking for a key changes no entry; it may remove the one that was asked for.
proof fn lemma_touched(
    e: Seq<(Seq<char>, u64, Seq<char>)>,
    asked: Seq<char>,
    now: u64,
    key: Seq<char>,
)
    requires
        keyed(e),
    ensures
        keyed(touched(e, asked, now)),
        ({
            let after = recent::lookup(touched(e, asked, now), key);
            after == recent::lookup(e, key) || after is None
        }),
{
    lemma_without(e, asked);
    lemma_lookup_without(e, asked, key);
    if let Some((stamp, body)) = recent::lookup(e, asked) {
        lemma_lookup_front(recent::without(e, asked), (asked, stamp, body), key);
        lemma_front_keyed(e, asked, stamp, body);
    }
}

/// What is found under a key that was just stored is what was stored.
proof fn lemma_stored_lookup(
    e: Seq<(Seq<char>, u64, Seq<char>)>,
    cap: nat,
    key: Seq<char>,
    stamp: u64,
    body: Seq<char>,
)
    requires
        keyed(e),
    ensures
        recent::lookup(stored(e, cap, key, stamp, body), key) matches Some(v) ==> v == (
            stamp,
            body,
        ),
{
    let rest = recent::without(e, key);
    let all = seq![(key, stamp, body)] + rest;
    lemma_without(e, key);
    lemma_lookup_without(e, key, key);
    lemma_lookup_front(rest, (key, stamp, body), key);
    if all.len() > cap {
        if rest.len() == 0 {
            assert(all.drop_last() =~= Seq::<(Seq<char>, u64, Seq<char>)>::empty());
        } else {
            assert(all.last() == rest.last());
            lemma_lookup_drop_last(all, key);
        }
    }
}

/// Nothing expired is ever served: whatever key was asked for before, what a second call gives
/// at `now` was stored under its key, in memory or in the file, less than an hour before `now`.
pub proof fn nothing_expired_is_served(
    e: Seq<(Seq<char>, u64, Seq<char>)>,
    cap: nat,
    file: Seq<(Seq<char>, u64, Seq<char>)>,
    before: Seq<char>,
    then: u64,
    key: Seq<char>,
    now: u64,
)
    requires
        keyed(e),
    ensures
        got(got(e, cap, file, before, then).1, cap, file, key, now).0 matches Some(body) ==> exists|
            t: u64,
        |
            (recent::lookup(e, key) == Some((t, body)) || recent::lookup(file, key) == Some(
                (t, body),
            )) && #[trigger] fresh(t, now),
{
    let e2 = got(e, cap, file, before, then).1;
    reading_renews_nothing(e, cap, file, before, then, key);
    if let Some(body) = got(e2, cap, file, key, now).0 {
        if found(e2, key, now) is Some {
            assert(fresh((recent::lookup(e2, key)->0).0, now));
        } else {
            assert(fresh((recent::lookup(file, key)->0).0, now));
        }
    }
}

/// A body was stored under a key at a time, and neither memory nor the file says otherwise;
/// memory may have forgotten it.
pub open spec fn set_at(
    e: Seq<(Seq<char>, u64, Seq<char>)>,
    file: Seq<(Seq<char>, u64, Seq<char>)>,
    key: Seq<char>,
    then: u64,
    body: Seq<char>,
) -> bool {
    &&& keyed(e)
    &&& recent::lookup(file, key) == Some((then, body))
    &&& recent::lookup(e, key) is None || recent::lookup(e, key) == Some((then, body))
}

/// Storing a body makes it the one that was stored last.
pub proof fn storing_sets(
    e: Seq<(Seq<char>, u64, Seq<char>)>,
    cap: nat,
    file: Seq<(Seq<char>, u64, Seq<char>)>,
    key: Seq<char>,
    then: u64,
    body: Seq<char>,
)
    requires
        keyed(e),
    ensures
        set_at(stored(e, cap, key, then, body), filed(file, key, body, then), key, then, body),
{
    lemma_front_keyed(e, key, then, body);
    lemma_stored_lookup(e, cap, key, then, body);
    let r = refilled(file, then);
    lemma_refilled(file, then);
    lemma_without(r, key);
    let kept = stored(r, CAP as nat, key, then, body);
    assert(kept[0] == (key, then, body));
    assert(kept.reverse().last() == kept[0]);
}

/// A stored body is served under its key at `now` if and only if it was stored less than an
/// hour before, and nothing is served in its place afterwards. Asking for any key, at any time,
/// leaves that as it is.
pub proof fn answers_are_served_for_an_hour(
    e: Seq<(Seq<char>, u64, Seq<char>)>,
    cap: nat,
    file: Seq<(Seq<char>, u64, Seq<char>)>,
    key: Seq<char>,
    then: u64,
    body: Seq<char>,
    asked: Seq<char>,
    now: u64,
)
    requires
        set_at(e, file, key, then, body),
    ensures
        got(e, cap, file, key, now).0 == if now - then < 3600 {
            Some(body)
        } else {
            None
        },
        set_at(got(e, cap, file, asked, now).1, file, key, then, body),
{
    let after = touched(e, asked, now);
    lemma_touched(e, asked, now, key);
    reading_renews_nothing(e, cap, file, asked, now, key);
    if found(e, asked, now) is None && found(file, asked, now) is Some {
        let (stamp, b) = recent::lookup(file, asked)->0;
        lemma_front_keyed(after, asked, stamp, b);
    }
}

/// An entry that is asked for once it has expired is gone from memory.
pub proof fn expired_entries_are_removed(
    e: Seq<(Seq<char>, u64, Seq<char>)>,
    key: Seq<char>,
    now: u64,
)
    requires
        found(e, key, now) is None,
    ensures
        recent::lookup(touched(e, key, now), key) is None,
{
    lemma_lookup_without(e, key, key);
}

/// Where the cache is full, a new key drives out exactly the least recently used one.
pub proof fn least_recently_used_is_forgotten(
    e: Seq<(Seq<char>, u64, Seq<char>)>,
    cap: nat,
    key: Seq<char>,
    stamp: u64,
    body: Seq<char>,
)
    requires
        keyed(e),
        0 < cap,
        e.len() == cap,
        recent::lookup(e, key) is None,
    ensures
        stored(e, cap, key, stamp, body) == seq![(key, stamp, body)] + e.drop_last(),
{
    lemma_without(e, key);
}

/// A fresh entry that is asked for becomes the most recently used: the next new key of a full
/// cache does not drive it out, unless the cache holds one entry only.
pub proof fn reading_protects(
    e: Seq<(Seq<char>, u64, Seq<char>)>,
    cap: nat,
    key: Seq<char>,
    now: u64,
    new_key: Seq<char>,
    stamp: u64,
    body: Seq<char>,
)
    requires
        keyed(e),
        1 < cap,
        e.len() <= cap,
        found(e, key, now) is Some,
        new_key != key,
    ensures
        recent::lookup(
            stored(touched(e, key, now), cap, new_key, stamp, body),
            key,
        ) == recent::lookup(e, key),
{
    let (t, b) = recent::lookup(e, key)->0;
    let rest = recent::without(e, key);
    let after = touched(e, key, now);
    lemma_without(e, key);
    lemma_front_keyed(e, key, t, b);
    lemma_lookup_without(e, key, key);
    lemma_lookup_front(rest, (key, t, b), key);
    let kept = recent::without(after, new_key);
    lemma_without(after, new_key);
    lemma_lookup_without(after, new_key, key);
    lemma_lookup_front(kept, (new_key, stamp, body), key);
    let all = seq![(new_key, stamp, body)] + kept;
    if all.len() > cap {
        lemma_without_front(after, new_key);
        assert(kept[0] == after[0]);
        if kept.last().0 == key {
            assert(kept[kept.len() - 1].0 == kept[0].0);
            assert(kept.len() == 1);
        }
        assert(all.last() == kept.last());
        lemma_lookup_drop_last(all, key);
    }
}

/// Removing another key leaves the first entry where it is.
proof fn lemma_without_front(e: Seq<(Seq<char>, u64, Seq<char>)>, key: Seq<char>)
    requires
        e.len() > 0,
        e[0].0 != key,
    ensures
        recent::without(e, key).len() > 0,
        recent::without(e, key)[0] == e[0],
    decreases e.len(),
{
    if e.len() > 1 {
        lemma_without_front(e.drop_last(), key);
    } else {
        reveal_with_fuel(recent::without, 2);
    }
}

/// Storing under one key leaves each other key with its entry, or drops it for good.
pub proof fn storing_changes_no_other_entry(
    e: Seq<(Seq<char>, u64, Seq<char>)>,
    cap: nat,
    key: Seq<char>,
    stamp: u64,
    body: Seq<char>,
    other: Seq<char>,
)
    requires
        keyed(e),
        other != key,
    ensures
        ({
            let after = recent::lookup(stored(e, cap, key, stamp, body), other);
            after == recent::lookup(e, other) || after is None
        }),
{
    let rest = recent::without(e, key);
    let all = seq![(key, stamp, body)] + rest;
    lemma_front_keyed(e, key, stamp, body);
    lemma_lookup_without(e, key, other);
    lemma_lookup_front(rest, (key, stamp, body), other);
    if all.len() > cap {
        if all.last().0 == other {
            lemma_absent(all.drop_last(), other, all);
        } else {
            lemma_lookup_drop_last(all, other);
        }
    }
}

/// The key of the last entry is not found before it.
proof fn lemma_absent(
    e: Seq<(Seq<char>, u64, Seq<char>)>,
    key: Seq<char>,
    all: Seq<(Seq<char>, u64, Seq<char>)>,
)
    requires
        keyed(all),
        all.len() > 0,
        all.last().0 == key,
        e.len() < all.len(),
        e == all.take(e.len() as int),
    ensures
        recent::lookup(e, key) is None,
    decreases e.len(),
{
    if e.len() > 0 {
        assert(e.last() == all[e.len() - 1]);
        assert(all[e.len() - 1].0 != all[all.len() - 1].0);
        assert(e.drop_last() == all.take(e.len() - 1));
        lemma_absent(e.drop_last(), key, all);
    }
}

/// The last two fields of a key, taken together.
proof fn lemma_last_fields(p: Seq<char>, f: Seq<char>, g: Seq<char>)
    ensures
        p + seq!['|'] + f + seq!['|'] + g == p + seq!['|'] + (f + seq!['|'] + g),
{
}

proof fn lemma_no_bar(n: nat, b: bool)
    ensures
        !text::decimal(n).contains('|'),
        !shown_bool(b).contains('|'),
        shown_bool(true) != shown_bool(false),
{
    text::lemma_decimal_digits(n);
    reveal_strlit("true");
    reveal_strlit("false");
    assert("true"@.len() != "false"@.len());
}

/// Requests that differ in anything but whether the offset zero is spelled out have different
/// keys, unless a bar in an address, a query or a page range makes them look alike.
pub proof fn keys_do_not_collide(
    url: Seq<char>,
    focus: Seq<char>,
    max_chars: nat,
    offset: nat,
    include_media: bool,
    pages: Seq<char>,
    actions_len: nat,
    url2: Seq<char>,
    focus2: Seq<char>,
    max_chars2: nat,
    offset2: nat,
    include_media2: bool,
    pages2: Seq<char>,
    actions_len2: nat,
)
    requires
        !url.contains('|'),
        !focus.contains('|'),
        !pages.contains('|'),
        !url2.contains('|'),
        !focus2.contains('|'),
        !pages2.contains('|'),
        full_key(url, focus, max_chars, offset, include_media, pages, actions_len) == full_key(
            url2,
            focus2,
            max_chars2,
            offset2,
            include_media2,
            pages2,
            actions_len2,
        ),
    ensures
        url == url2,
        focus == focus2,
        max_chars == max_chars2,
        offset == offset2,
        include_media == include_media2,
        pages == pages2,
        actions_len == actions_len2,
{
    reveal_strlit("|");
    let bar = seq!['|'];
    assert("|"@ == bar);
    let (m, o, i, n) = (
        text::decimal(max_chars),
        text::decimal(offset),
        shown_bool(include_media),
        text::decimal(actions_len),
    );
    let (m2, o2, i2, n2) = (
        text::decimal(max_chars2),
        text::decimal(offset2),
        shown_bool(include_media2),
        text::decimal(actions_len2),
    );
    lemma_no_bar(max_chars, include_media);
    lemma_no_bar(max_chars2, include_media2);
    lemma_no_bar(offset, true);
    lemma_no_bar(offset2, true);
    let t5 = pages + bar + n;
    let t4 = i + bar + t5;
    let t3 = o + bar + t4;
    let t2 = m + bar + t3;
    let t1 = focus + bar + t2;
    let u5 = pages2 + bar + n2;
    let u4 = i2 + bar + u5;
    let u3 = o2 + bar + u4;
    let u2 = m2 + bar + u3;
    let u1 = focus2 + bar + u2;
    lemma_last_fields(url + bar + focus + bar + m + bar + o + bar + i, pages, n);
    lemma_last_fields(url + bar + focus + bar + m + bar + o, i, t5);
    lemma_last_fields(url + bar + focus + bar + m, o, t4);
    lemma_last_fields(url + bar + focus, m, t3);
    lemma_last_fields(url, focus, t2);
    lemma_last_fields(url2 + bar + focus2 + bar + m2 + bar + o2 + bar + i2, pages2, n2);
    lemma_last_fields(url2 + bar + focus2 + bar + m2 + bar + o2, i2, u5);
    lemma_last_fields(url2 + bar + focus2 + bar + m2, o2, u4);
    lemma_last_fields(url2 + bar + focus2, m2, u3);
    lemma_last_fields(url2, focus2, u2);
    text::lemma_delimited(url, t1, url2, u1, '|');
    text::lemma_delimited(focus, t2, focus2, u2, '|');
    text::lemma_delimited(m, t3, m2, u3, '|');
    text::lemma_delimited(o, t4, o2, u4, '|');
    text::lemma_delimited(i, t5, i2, u5, '|');
    text::lemma_delimited(pages, n, pages2, n2, '|');
    text::decimal_is_injective(max_chars, max_chars2);
    text::decimal_is_injective(offset, offset2);
    text::decimal_is_injective(actions_len, actions_len2);
}

// ── What the cache must hold ────────────────────────────────────────────────

/// The cache holds two hundred entries, and each lives for an hour.
pub proof fn sizes_of_the_cache(stamp: u64, now: u64)
    ensures
        CAP == 200,
        fresh(stamp, now) <==> now - stamp < 3600,
{
}

/// Where there is room, storing an entry leaves every other one where it is found.
pub proof fn storing_with_room_forgets_nothing(
    e: Seq<(Seq<char>, u64, Seq<char>)>,
    cap: nat,
    key: Seq<char>,
    stamp: u64,
    body: Seq<char>,
    other: Seq<char>,
)
    requires
        keyed(e),
        e.len() < cap,
        other != key,
    ensures
        recent::lookup(stored(e, cap, key, stamp, body), other) == recent::lookup(e, other),
        recent::lookup(stored(e, cap, key, stamp, body), key) == Some((stamp, body)),
        stored(e, cap, key, stamp, body)[0] == (key, stamp, body),
        stored(e, cap, key, stamp, body).len() <= e.len() + 1,
{
    lemma_without(e, key);
    lemma_front_found(e, cap, key, stamp, body);
    lemma_lookup_without(e, key, other);
    lemma_lookup_front(recent::without(e, key), (key, stamp, body), other);
}

/// An entry is found under its key, if no key comes twice; and nothing is found under a key that no
/// entry has.
pub proof fn entries_are_found_under_their_keys(
    e: Seq<(Seq<char>, u64, Seq<char>)>,
    key: Seq<char>,
)
    requires
        keyed(e),
    ensures
        forall|i: int|
            0 <= i < e.len() && (#[trigger] e[i]).0 == key ==> recent::lookup(e, key) == Some(
                (e[i].1, e[i].2),
            ),
        (forall|i: int| 0 <= i < e.len() ==> (#[trigger] e[i]).0 != key) ==> recent::lookup(
            e,
            key,
        ) is None,
    decreases e.len(),
{
    if e.len() > 0 {
        let less = e.drop_last();
        assert forall|i: int, j: int| 0 <= i < j < less.len() implies (#[trigger] less[i]).0 != (
        #[trigger] less[j]).0 by {
            assert(less[i] == e[i] && less[j] == e[j]);
        }
        entries_are_found_under_their_keys(less, key);
        assert forall|i: int| 0 <= i < e.len() && (#[trigger] e[i]).0 == key implies recent::lookup(
            e,
            key,
        ) == Some((e[i].1, e[i].2)) by {
            if i < less.len() {
                assert(less[i] == e[i]);
                assert(e[e.len() - 1].0 != key);
            }
        }
        if forall|i: int| 0 <= i < e.len() ==> (#[trigger] e[i]).0 != key {
            assert(e[e.len() - 1].0 != key);
            assert forall|i: int| 0 <= i < less.len() implies (#[trigger] less[i]).0 != key by {
                assert(less[i] == e[i]);
            }
        }
    }
}

proof fn lemma_refilled_keeps(file: Seq<(Seq<char>, u64, Seq<char>)>, now: u64, i: int)
    requires
        keyed(file),
        file.len() <= CAP,
        0 <= i < file.len(),
        fresh(file[i].1, now),
    ensures
        recent::lookup(refilled(file, now), file[i].0) == Some((file[i].1, file[i].2)),
    decreases file.len(),
{
    let less = file.drop_last();
    let rest = refilled(less, now);
    lemma_refilled(less, now);
    lemma_refilled_small(less, now);
    let (key, stamp, body) = file.last();
    assert forall|a: int, b: int| 0 <= a < b < less.len() implies (#[trigger] less[a]).0 != (
    #[trigger] less[b]).0 by {
        assert(less[a] == file[a] && less[b] == file[b]);
    }
    if i == less.len() {
        lemma_front_found(rest, CAP as nat, key, stamp, body);
    } else {
        assert(less[i] == file[i]);
        lemma_refilled_keeps(less, now, i);
        assert(file[i].0 != file[file.len() - 1].0);
        if fresh(stamp, now) {
            storing_with_room_forgets_nothing(rest, CAP as nat, key, stamp, body, file[i].0);
        }
    }
}

proof fn lemma_refilled_small(file: Seq<(Seq<char>, u64, Seq<char>)>, now: u64)
    ensures
        refilled(file, now).len() <= file.len(),
    decreases file.len(),
{
    if file.len() > 0 {
        let less = file.drop_last();
        lemma_refilled_small(less, now);
        lemma_refilled(less, now);
        lemma_without(refilled(less, now), file.last().0);
    }
}

proof fn lemma_lookup_reverse(e: Seq<(Seq<char>, u64, Seq<char>)>, key: Seq<char>)
    requires
        keyed(e),
    ensures
        recent::lookup(e.reverse(), key) == recent::lookup(e, key),
{
    let r = e.reverse();
    assert forall|i: int, j: int| 0 <= i < j < r.len() implies (#[trigger] r[i]).0 != (
    #[trigger] r[j]).0 by {
        assert(r[i] == e[e.len() - 1 - i] && r[j] == e[e.len() - 1 - j]);
    }
    entries_are_found_under_their_keys(e, key);
    entries_are_found_under_their_keys(r, key);
    if exists|i: int| 0 <= i < e.len() && (#[trigger] e[i]).0 == key {
        let i = choose|i: int| 0 <= i < e.len() && (#[trigger] e[i]).0 == key;
        assert(r[e.len() - 1 - i] == e[i]);
    } else {
        assert forall|i: int| 0 <= i < r.len() implies (#[trigger] r[i]).0 != key by {
            assert(r[i] == e[e.len() - 1 - i]);
        }
    }
}

/// Writing an entry to the file keeps every other one that was made less than an hour ago, as long
/// as there are less than two hundred: a process whose memory is empty still gets it.
pub proof fn the_file_keeps_what_has_not_expired(
    file: Seq<(Seq<char>, u64, Seq<char>)>,
    cap: nat,
    key: Seq<char>,
    body: Seq<char>,
    now: u64,
    i: int,
)
    requires
        keyed(file),
        file.len() < 200,
        0 <= i < file.len(),
        file[i].0 != key,
        now - file[i].1 < 3600,
    ensures
        got(seq![], cap, filed(file, key, body, now), file[i].0, now).0 == Some(file[i].2),
{
    let r = refilled(file, now);
    lemma_refilled(file, now);
    lemma_refilled_small(file, now);
    lemma_refilled_keeps(file, now, i);
    storing_with_room_forgets_nothing(r, CAP as nat, key, now, body, file[i].0);
    let s = stored(r, CAP as nat, key, now, body);
    lemma_front_keyed(r, key, now, body);
    assert(keyed(s));
    lemma_lookup_reverse(s, file[i].0);
}

/// What is in memory goes before what is in the file, and what is in neither is not served.
pub proof fn memory_goes_before_the_file(
    e: Seq<(Seq<char>, u64, Seq<char>)>,
    cap: nat,
    file: Seq<(Seq<char>, u64, Seq<char>)>,
    key: Seq<char>,
    now: u64,
)
    ensures
        ({
            let r = got(e, cap, file, key, now).0;
            match recent::lookup(e, key) {
                Some((t, b)) => if now - t < 3600 {
                    r == Some(b)
                } else {
                    match recent::lookup(file, key) {
                        Some((u, c)) => if now - u < 3600 {
                            r == Some(c)
                        } else {
                            r is None
                        },
                        None => r is None,
                    }
                },
                None => match recent::lookup(file, key) {
                    Some((u, c)) => if now - u < 3600 {
                        r == Some(c)
                    } else {
                        r is None
                    },
                    None => r is None,
                },
            }
        }),
{
}

/// An answer is found as soon as the file has it, unexpired, under any of the keys; and what is
/// found was stored under one of them.
pub proof fn any_of_the_keys_finds_the_answer(
    e: Seq<(Seq<char>, u64, Seq<char>)>,
    cap: nat,
    file: Seq<(Seq<char>, u64, Seq<char>)>,
    keys: Seq<Seq<char>>,
    now: u64,
)
    requires
        keyed(e),
    ensures
        (exists|k: int|
            0 <= k < keys.len() && (recent::lookup(file, #[trigger] keys[k]) matches Some(v) && now
                - v.0 < 3600)) ==> first_got(e, cap, file, keys, now).0 is Some,
        keys.len() > 0 && got(e, cap, file, keys[0], now).0 is Some ==> first_got(
            e,
            cap,
            file,
            keys,
            now,
        ) == got(e, cap, file, keys[0], now),
        keys.len() == 0 ==> first_got(e, cap, file, keys, now) == (None::<Seq<char>>, e),
        first_got(e, cap, file, keys, now).0 matches Some(body) ==> exists|k: int, t: u64|
            0 <= k < keys.len() && (recent::lookup(e, #[trigger] keys[k]) == Some((t, body))
                || recent::lookup(file, keys[k]) == Some((t, body))) && #[trigger] fresh(t, now),
    decreases keys.len(),
{
    if keys.len() > 0 {
        let g = got(e, cap, file, keys[0], now);
        if g.0 is Some {
            assert(first_got(e, cap, file, keys, now) == g);
            if found(e, keys[0], now) is Some {
                let t = (recent::lookup(e, keys[0])->0).0;
                assert(fresh(t, now));
            } else {
                let t = (recent::lookup(file, keys[0])->0).0;
                assert(fresh(t, now));
            }
        } else {
            let rest = keys.drop_first();
            lemma_touched(e, keys[0], now, keys[0]);
            any_of_the_keys_finds_the_answer(g.1, cap, file, rest, now);
            if let Some(body) = first_got(g.1, cap, file, rest, now).0 {
                let (k, t) = choose|k: int, t: u64|
                    0 <= k < rest.len() && (recent::lookup(g.1, #[trigger] rest[k]) == Some(
                        (t, body),
                    ) || recent::lookup(file, rest[k]) == Some((t, body))) && #[trigger] fresh(
                        t,
                        now,
                    );
                reading_renews_nothing(e, cap, file, keys[0], now, rest[k]);
                assert(keys[k + 1] == rest[k]);
                assert(fresh(t, now));
            }
            if exists|k: int|
                0 <= k < keys.len() && (recent::lookup(file, #[trigger] keys[k]) matches Some(v)
                    && now - v.0 < 3600) {
                let k = choose|k: int|
                    0 <= k < keys.len() && (recent::lookup(file, #[trigger] keys[k]) matches Some(v)
                        && now - v.0 < 3600);
                assert(k > 0);
                assert(rest[k - 1] == keys[k]);
            }
        }
    }
}

/// A key holds the address, the query and the limit of a request, with a bar between them.
pub proof fn plain_keys_hold_the_request(url: Seq<char>, focus: Seq<char>, max_chars: nat)
    ensures
        plain_key(url, focus, max_chars) == url + seq!['|'] + focus + seq!['|'] + text::decimal(
            max_chars,
        ),
{
    reveal_strlit("|");
    assert("|"@ =~= seq!['|']);
}

/// What only the file has is in memory once it was asked for, with the age that it has.
pub proof fn what_the_file_gives_is_kept_in_memory(
    e: Seq<(Seq<char>, u64, Seq<char>)>,
    cap: nat,
    file: Seq<(Seq<char>, u64, Seq<char>)>,
    key: Seq<char>,
    now: u64,
    stamp: u64,
    body: Seq<char>,
)
    requires
        keyed(e),
        0 < cap,
        e.len() <= cap,
        recent::lookup(e, key) is None,
        recent::lookup(file, key) == Some((stamp, body)),
        now - stamp < 3600,
    ensures
        recent::lookup(got(e, cap, file, key, now).1, key) == Some((stamp, body)),
{
    lemma_front_found(e, cap, key, stamp, body);
}

} // verus!
