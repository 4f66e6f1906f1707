//! Text primitives.
//!
//! A text is modelled by its sequence of characters; its length in bytes is that of its
//! UTF-8 encoding. Every search, split and trim below works on characters.

use vstd::prelude::*;
use vstd::utf8::*;

verus! {

/// Appending one character extends the text by exactly that character.
pub assume_specification[ String::push ](s: &mut String, c: char)
    ensures
        final(s)@ == old(s)@.push(c),
;

/// The length of a text in bytes.
pub open spec fn byte_len(s: Seq<char>) -> nat {
    encode_utf8(s).len()
}

/// The length of `s` in bytes.
pub fn len(s: &str) -> (r: usize)
    ensures
        r == byte_len(s@),
{
    s.as_bytes().len()
}

/// The characters of `s`.
pub fn to_chars(s: &str) -> (r: Vec<char>)
    ensures
        r@ == s@,
{
    let mut r: Vec<char> = Vec::new();
    for c in it: s.chars()
        invariant
            r@ == s@.take(it.index()),
            it.seq() == s@,
    {
        r.push(c);
    }
    r
}

/// The text made of the characters `from..to` of `c`.
pub fn from_chars(c: &[char], from: usize, to: usize) -> (r: String)
    requires
        from <= to <= c@.len(),
    ensures
        r@ == c@.subrange(from as int, to as int),
{
    let mut r = String::new();
    let mut i: usize = from;
    while i < to
        invariant
            from <= i <= to <= c@.len(),
            r@ == c@.subrange(from as int, i as int),
        decreases to - i,
    {
        r.push(c[i]);
        i += 1;
    }
    r
}

// ── Bytes ───────────────────────────────────────────────────────────────────

/// The first `n` bytes of `s` are whole characters.
pub open spec fn splits_at(s: Seq<char>, n: int) -> bool {
    is_char_boundary(encode_utf8(s), n)
}

/// The characters in the first `n` bytes of `s`.
pub open spec fn before(s: Seq<char>, n: int) -> Seq<char> {
    decode_utf8(encode_utf8(s).subrange(0, n))
}

/// The characters behind the first `n` bytes of `s`.
pub open spec fn after(s: Seq<char>, n: int) -> Seq<char> {
    decode_utf8(encode_utf8(s).subrange(n, byte_len(s) as int))
}

/// A split between two characters loses nothing.
pub proof fn lemma_split(s: Seq<char>, n: int)
    requires
        splits_at(s, n),
    ensures
        0 <= n <= byte_len(s),
        s == before(s, n) + after(s, n),
        encode_utf8(before(s, n)) == encode_utf8(s).subrange(0, n),
        encode_utf8(after(s, n)) == encode_utf8(s).subrange(n, byte_len(s) as int),
{
    encode_utf8_valid_utf8(s);
    encode_utf8_decode_utf8(s);
    valid_utf8_split(encode_utf8(s), n);
    decode_utf8_split(encode_utf8(s), n);
    decode_utf8_encode_utf8(encode_utf8(s).subrange(0, n));
    decode_utf8_encode_utf8(encode_utf8(s).subrange(n, byte_len(s) as int));
}

/// Both ends of a text are between characters; a split at an end keeps the whole.
pub proof fn lemma_split_ends(s: Seq<char>)
    ensures
        splits_at(s, 0),
        splits_at(s, byte_len(s) as int),
        after(s, 0) == s,
        after(s, byte_len(s) as int) == Seq::<char>::empty(),
{
    encode_utf8_valid_utf8(s);
    encode_utf8_decode_utf8(s);
    is_char_boundary_start_end_of_seq(encode_utf8(s));
    assert(encode_utf8(s).subrange(0, byte_len(s) as int) == encode_utf8(s));
    assert(encode_utf8(s).subrange(byte_len(s) as int, byte_len(s) as int) == Seq::<u8>::empty());
}

/// The bytes of two texts put together are their bytes put together.
pub proof fn lemma_encode_concat(a: Seq<char>, b: Seq<char>)
    ensures
        encode_utf8(a + b) == encode_utf8(a) + encode_utf8(b),
        byte_len(a + b) == byte_len(a) + byte_len(b),
    decreases a.len(),
{
    if a.len() == 0 {
        assert(a + b =~= b);
        assert(encode_utf8(a) =~= Seq::<u8>::empty());
        assert(encode_utf8(a) + encode_utf8(b) =~= encode_utf8(b));
    } else {
        lemma_encode_concat(a.drop_first(), b);
        assert((a + b).drop_first() =~= a.drop_first() + b);
        assert((a + b)[0] == a[0]);
        assert(encode_utf8(a + b) =~= encode_utf8(a) + encode_utf8(b));
    }
}

/// Where two texts meet is between characters, and behind it is the second.
pub proof fn lemma_split_concat(a: Seq<char>, b: Seq<char>)
    ensures
        splits_at(a + b, byte_len(a) as int),
        after(a + b, byte_len(a) as int) == b,
{
    lemma_encode_concat(a, b);
    lemma_split_ends(a + b);
    encode_utf8_valid_utf8(a + b);
    encode_utf8_valid_utf8(b);
    encode_utf8_decode_utf8(b);
    let n = byte_len(a) as int;
    if byte_len(b) > 0 {
        assert(encode_utf8(a + b)[n] == encode_utf8(b)[0]);
        is_char_boundary_iff_not_is_continuation_byte(encode_utf8(a + b), n);
    }
    assert(encode_utf8(a + b).subrange(n, byte_len(a + b) as int) =~= encode_utf8(b));
}

/// A text takes at least one byte for each of its characters.
pub proof fn lemma_byte_len(s: Seq<char>)
    ensures
        s.len() <= byte_len(s),
    decreases s.len(),
{
    if s.len() > 0 {
        lemma_byte_len(s.drop_first());
        assert(encode_utf8(s) =~= encode_scalar(s[0] as u32) + encode_utf8(s.drop_first()));
    }
}

/// An ASCII character is its own only byte.
pub proof fn lemma_ascii_byte(c: char)
    requires
        c as u32 <= 0x7f,
    ensures
        encode_utf8(seq![c]) == seq![c as u8],
{
    let s = seq![c];
    is_ascii_chars_encode_utf8(s);
    assert(encode_utf8(s) =~= seq![c as u8]);
}

/// A text without an ASCII character has no byte that is that character.
pub proof fn lemma_no_byte(s: Seq<char>, c: char)
    requires
        !s.contains(c),
        c as u32 <= 0x7f,
    ensures
        forall|i: int| 0 <= i < encode_utf8(s).len() ==> encode_utf8(s)[i] != c as u8,
    decreases s.len(),
{
    if s.len() > 0 {
        let first = s[0];
        let rest = s.drop_first();
        assert(s =~= seq![first] + rest);
        assert forall|i: int| 0 <= i < rest.len() implies rest[i] != c by {
            assert(rest[i] == s[i + 1]);
        }
        lemma_no_byte(rest, c);
        lemma_encode_concat(seq![first], rest);
        let e = encode_utf8(seq![first]);
        assert(s[0] == first && first != c);
        assert forall|i: int| 0 <= i < e.len() implies e[i] != c as u8 by {
            lemma_other_byte(first, c, i);
        }
    }
}

/// No byte of a character is another character that is ASCII.
proof fn lemma_other_byte(a: char, c: char, i: int)
    requires
        a != c,
        c as u32 <= 0x7f,
        0 <= i < encode_utf8(seq![a]).len(),
    ensures
        encode_utf8(seq![a])[i] != c as u8,
{
    if a as u32 <= 0x7f {
        lemma_ascii_byte(a);
    } else {
        lemma_high_bytes(a, i);
    }
}

/// No byte of a character beyond ASCII is an ASCII byte.
proof fn lemma_high_bytes(c: char, i: int)
    requires
        c as u32 > 0x7f,
        0 <= i < encode_utf8(seq![c]).len(),
    ensures
        encode_utf8(seq![c])[i] > 0x7f,
{
    let s = seq![c];
    reveal_with_fuel(encode_utf8, 2);
    assert(encode_utf8(s) =~= encode_scalar(c as u32));
    let v: u32 = c as u32;
    assert(0xc0u8 | (((v >> 6) & 0x1f) as u8) > 0x7f) by (bit_vector);
    assert(0xe0u8 | (((v >> 12) & 0x0f) as u8) > 0x7f) by (bit_vector);
    assert(0xf0u8 | (((v >> 18) & 0x07) as u8) > 0x7f) by (bit_vector);
    assert(0x80u8 | ((v & 0x3f) as u8) > 0x7f) by (bit_vector);
    assert(0x80u8 | (((v >> 6) & 0x3f) as u8) > 0x7f) by (bit_vector);
    assert(0x80u8 | (((v >> 12) & 0x3f) as u8) > 0x7f) by (bit_vector);
}

/// The number of characters of `s`.
pub fn count_chars(s: &str) -> (r: usize)
    ensures
        r == s@.len(),
{
    to_chars(s).len()
}

/// The characters behind the first `n` bytes of `s`.
pub fn rest(s: &str, n: usize) -> (r: String)
    requires
        splits_at(s@, n as int),
    ensures
        r@ == after(s@, n as int),
{
    let t = s.split_at(n).1;
    proof {
        encode_utf8_decode_utf8(t@);
    }
    t.to_owned()
}

/// The bytes of a text that is written in ASCII.
pub open spec fn ascii(s: Seq<char>) -> Seq<u8> {
    Seq::new(s.len(), |i: int| s[i] as u8)
}

/// The bytes of an ASCII text.
pub fn ascii_bytes(s: &str) -> (r: &[u8])
    requires
        is_ascii_chars(s@),
    ensures
        r@ == ascii(s@),
{
    proof {
        is_ascii_chars_encode_utf8(s@);
        assert(encode_utf8(s@) =~= ascii(s@));
    }
    s.as_bytes()
}

// ── Characters ──────────────────────────────────────────────────────────────

/// White space: the characters with the Unicode property `White_Space`.
pub open spec fn space(c: char) -> bool {
    ||| '\u{9}' <= c <= '\u{d}'
    ||| c == ' '
    ||| c == '\u{85}'
    ||| c == '\u{a0}'
    ||| c == '\u{1680}'
    ||| '\u{2000}' <= c <= '\u{200a}'
    ||| c == '\u{2028}'
    ||| c == '\u{2029}'
    ||| c == '\u{202f}'
    ||| c == '\u{205f}'
    ||| c == '\u{3000}'
}

/// Whether `c` is white space.
pub fn is_space(c: char) -> (r: bool)
    ensures
        r == space(c),
{
    ('\u{9}' <= c && c <= '\u{d}') || c == ' ' || c == '\u{85}' || c == '\u{a0}' || c == '\u{1680}'
        || ('\u{2000}' <= c && c <= '\u{200a}') || c == '\u{2028}' || c == '\u{2029}' || c
        == '\u{202f}' || c == '\u{205f}' || c == '\u{3000}'
}

/// ASCII white space of a byte: space, tab, line feed, form feed, carriage return.
pub open spec fn space_byte(b: u8) -> bool {
    b == 0x20 || b == 0x09 || b == 0x0a || b == 0x0c || b == 0x0d
}

/// Whether `b` is ASCII white space.
pub fn is_space_byte(b: u8) -> (r: bool)
    ensures
        r == space_byte(b),
{
    b == 0x20 || b == 0x09 || b == 0x0a || b == 0x0c || b == 0x0d
}

// ── Trimming ────────────────────────────────────────────────────────────────

/// `s` without its leading white space.
pub open spec fn trim_start(s: Seq<char>) -> Seq<char>
    decreases s.len(),
{
    if s.len() > 0 && space(s[0]) {
        trim_start(s.drop_first())
    } else {
        s
    }
}

/// `s` without its trailing white space.
pub open spec fn trim_end(s: Seq<char>) -> Seq<char>
    decreases s.len(),
{
    if s.len() > 0 && space(s.last()) {
        trim_end(s.drop_last())
    } else {
        s
    }
}

/// `s` without white space at either end.
pub open spec fn trimmed(s: Seq<char>) -> Seq<char> {
    trim_end(trim_start(s))
}

/// Where `c[from..]` continues once its leading white space is skipped.
pub fn skip_space(c: &[char], from: usize) -> (r: usize)
    requires
        from <= c@.len(),
    ensures
        from <= r <= c@.len(),
        c@.skip(r as int) == trim_start(c@.skip(from as int)),
        r < c@.len() ==> !space(c@[r as int]),
{
    let mut i: usize = from;
    while i < c.len() && is_space(c[i])
        invariant
            from <= i <= c@.len(),
            trim_start(c@.skip(from as int)) == trim_start(c@.skip(i as int)),
        decreases c@.len() - i,
    {
        assert(c@.skip(i as int).drop_first() == c@.skip(i + 1));
        i += 1;
    }
    i
}

/// `s` without white space at either end.
pub fn trim(s: &str) -> (r: String)
    ensures
        r@ == trimmed(s@),
{
    let c = to_chars(s);
    let from = skip_space(&c, 0);
    assert(c@.skip(0) == s@);
    let mut to: usize = c.len();
    assert(c@.subrange(from as int, to as int) == c@.skip(from as int));
    while from < to && is_space(c[to - 1])
        invariant
            from <= to <= c@.len(),
            trim_end(trim_start(s@)) == trim_end(c@.subrange(from as int, to as int)),
        decreases to,
    {
        assert(c@.subrange(from as int, to as int).drop_last() == c@.subrange(
            from as int,
            to - 1,
        ));
        to -= 1;
    }
    from_chars(&c, from, to)
}

// ── Words ───────────────────────────────────────────────────────────────────

/// The number of characters before the first white space.
pub open spec fn word_len(s: Seq<char>) -> nat
    decreases s.len(),
{
    if s.len() > 0 && !space(s[0]) {
        1 + word_len(s.drop_first())
    } else {
        0
    }
}

/// The maximal runs of characters that are not white space, in order.
pub open spec fn words(s: Seq<char>) -> Seq<Seq<char>>
    decreases s.len(),
{
    if s.len() == 0 {
        seq![]
    } else if space(s[0]) {
        words(s.drop_first())
    } else {
        let n = word_len(s);
        proof {
            lemma_word_len(s);
        }
        seq![s.take(n as int)] + words(s.skip(n as int))
    }
}

/// The first word is no longer than the text.
pub proof fn lemma_word_len(s: Seq<char>)
    ensures
        word_len(s) <= s.len(),
    decreases s.len(),
{
    if s.len() > 0 {
        lemma_word_len(s.drop_first());
    }
}

/// The text behind an optional string.
pub open spec fn opt(s: Option<String>) -> Option<Seq<char>> {
    match s {
        Some(t) => Some(t@),
        None => None,
    }
}

/// A copy of an optional string.
pub fn copy_opt(s: &Option<String>) -> (r: Option<String>)
    ensures
        r == *s,
{
    match s {
        Some(t) => Some(t.clone()),
        None => None,
    }
}

/// The texts behind a list of strings.
pub open spec fn views(v: Seq<String>) -> Seq<Seq<char>> {
    Seq::new(v.len(), |i: int| v[i]@)
}

/// The words of `s`.
pub fn split_words(s: &str) -> (r: Vec<String>)
    ensures
        views(r@) == words(s@),
{
    let c = to_chars(s);
    let mut r: Vec<String> = Vec::new();
    let mut i: usize = 0;
    assert(c@.skip(0) == c@);
    while i < c.len()
        invariant
            i <= c@.len(),
            c@ == s@,
            words(c@) == views(r@) + words(c@.skip(i as int)),
        decreases c@.len() - i,
    {
        let ghost rest = c@.skip(i as int);
        if is_space(c[i]) {
            assert(rest.drop_first() == c@.skip(i + 1));
            i += 1;
        } else {
            let start: usize = i;
            let mut n: usize = 0;
            while i < c.len() && !is_space(c[i])
                invariant
                    start + n == i,
                    i <= c@.len(),
                    rest == c@.skip(start as int),
                    word_len(rest) == n + word_len(c@.skip(i as int)),
                decreases c@.len() - i,
            {
                assert(c@.skip(i as int).drop_first() == c@.skip(i + 1));
                i += 1;
                n += 1;
            }
            let w = from_chars(&c, start, i);
            let ghost before = views(r@);
            r.push(w);
            proof {
                assert(word_len(rest) == n);
                assert(n > 0);
                assert(rest.take(n as int) == w@);
                assert(rest.skip(n as int) == c@.skip(i as int));
                assert(views(r@) == before.push(w@));
                assert(before + (seq![w@] + words(c@.skip(i as int))) == before.push(w@) + words(
                    c@.skip(i as int),
                ));
            }
        }
    }
    assert(c@.skip(i as int).len() == 0);
    r
}

/// The pieces with `sep` between each two of them.
pub open spec fn joined(parts: Seq<Seq<char>>, sep: Seq<char>) -> Seq<char>
    decreases parts.len(),
{
    if parts.len() == 0 {
        seq![]
    } else if parts.len() == 1 {
        parts[0]
    } else {
        joined(parts.drop_last(), sep) + sep + parts.last()
    }
}

/// The strings with `sep` between each two of them.
pub fn join(parts: &[String], sep: &str) -> (r: String)
    ensures
        r@ == joined(views(parts@), sep@),
{
    let mut r = String::new();
    let mut i: usize = 0;
    while i < parts.len()
        invariant
            i <= parts@.len(),
            r@ == joined(views(parts@.take(i as int)), sep@),
        decreases parts@.len() - i,
    {
        let ghost done = views(parts@.take(i as int));
        if i > 0 {
            r.append(sep);
        }
        r.append(parts[i].as_str());
        i += 1;
        assert(views(parts@.take(i as int)).drop_last() == done);
    }
    assert(parts@.take(i as int) == parts@);
    r
}

/// The words of `s` with one space between each two of them.
pub open spec fn collapsed(s: Seq<char>) -> Seq<char> {
    joined(words(s), seq![' '])
}

/// `s` with every run of white space collapsed to one space, and none at the ends.
pub fn collapse(s: &str) -> (r: String)
    ensures
        r@ == collapsed(s@),
{
    let w = split_words(s);
    proof {
        reveal_strlit(" ");
        assert(" "@ == seq![' ']);
    }
    join(&w, " ")
}

// ── Searching ───────────────────────────────────────────────────────────────

/// `pat` stands in `s` at position `i`.
pub open spec fn occurs_at<T>(s: Seq<T>, pat: Seq<T>, i: int) -> bool {
    0 <= i && i + pat.len() <= s.len() && s.subrange(i, i + pat.len()) == pat
}

/// `pat` stands somewhere in `s`.
pub open spec fn contains(s: Seq<char>, pat: Seq<char>) -> bool {
    exists|i: int| occurs_at(s, pat, i)
}

/// `s` begins with `pat`.
pub open spec fn starts_with(s: Seq<char>, pat: Seq<char>) -> bool {
    occurs_at(s, pat, 0)
}

/// `s` ends with `pat`.
pub open spec fn ends_with(s: Seq<char>, pat: Seq<char>) -> bool {
    occurs_at(s, pat, s.len() - pat.len())
}

/// Whether `pat` stands in `s` at position `i`.
pub fn found_at(s: &[char], pat: &[char], i: usize) -> (r: bool)
    ensures
        r == occurs_at(s@, pat@, i as int),
{
    if i > s.len() || pat.len() > s.len() - i {
        return false;
    }
    let mut k: usize = 0;
    while k < pat.len()
        invariant
            k <= pat@.len(),
            i + pat@.len() <= s@.len() <= usize::MAX,
            forall|j: int| 0 <= j < k ==> s@[i + j] == pat@[j],
        decreases pat@.len() - k,
    {
        if s[i + k] != pat[k] {
            assert(s@.subrange(i as int, i + pat@.len())[k as int] != pat@[k as int]);
            return false;
        }
        k += 1;
    }
    assert(s@.subrange(i as int, i + pat@.len()) == pat@);
    true
}

/// Whether `pat` stands in `s` at position `i`.
pub fn bytes_at(s: &[u8], pat: &[u8], i: usize) -> (r: bool)
    ensures
        r == occurs_at(s@, pat@, i as int),
{
    if i > s.len() || pat.len() > s.len() - i {
        return false;
    }
    let mut k: usize = 0;
    while k < pat.len()
        invariant
            k <= pat@.len(),
            i + pat@.len() <= s@.len() <= usize::MAX,
            forall|j: int| 0 <= j < k ==> s@[i + j] == pat@[j],
        decreases pat@.len() - k,
    {
        if s[i + k] != pat[k] {
            assert(s@.subrange(i as int, i + pat@.len())[k as int] != pat@[k as int]);
            return false;
        }
        k += 1;
    }
    assert(s@.subrange(i as int, i + pat@.len()) == pat@);
    true
}

/// Whether `pat` stands somewhere in `s`.
pub fn found_in(s: &[char], pat: &[char]) -> (r: bool)
    ensures
        r == contains(s@, pat@),
{
    let mut i: usize = 0;
    while i < s.len()
        invariant
            i <= s@.len(),
            forall|j: int| 0 <= j < i ==> !occurs_at(s@, pat@, j),
        decreases s@.len() - i,
    {
        if found_at(s, pat, i) {
            return true;
        }
        i += 1;
    }
    let r = found_at(s, pat, i);
    assert(forall|j: int| occurs_at(s@, pat@, j) ==> 0 <= j <= s@.len());
    r
}

/// Whether `pat` stands somewhere in `s`.
pub fn has(s: &str, pat: &str) -> (r: bool)
    ensures
        r == contains(s@, pat@),
{
    found_in(&to_chars(s), &to_chars(pat))
}

/// Whether `s` begins with `pat`.
pub fn has_prefix(s: &str, pat: &str) -> (r: bool)
    ensures
        r == starts_with(s@, pat@),
{
    found_at(&to_chars(s), &to_chars(pat), 0)
}

/// Whether `s` ends with `pat`.
pub fn has_suffix(s: &str, pat: &str) -> (r: bool)
    ensures
        r == ends_with(s@, pat@),
{
    let c = to_chars(s);
    let p = to_chars(pat);
    if p.len() > c.len() {
        return false;
    }
    found_at(&c, &p, c.len() - p.len())
}

/// Whether two texts are the same.
pub fn same(a: &str, b: &str) -> (r: bool)
    ensures
        r == (a@ == b@),
{
    let x = to_chars(a);
    let y = to_chars(b);
    let r = x.len() == y.len() && found_at(&x, &y, 0);
    assert(x@.subrange(0, x@.len() as int) == x@);
    r
}

/// Whether `list` holds the text `s`.
pub fn listed(list: &[String], s: &str) -> (r: bool)
    ensures
        r == views(list@).contains(s@),
{
    let mut i: usize = 0;
    while i < list.len()
        invariant
            i <= list@.len(),
            forall|j: int| 0 <= j < i ==> views(list@)[j] != s@,
        decreases list@.len() - i,
    {
        if same(list[i].as_str(), s) {
            assert(views(list@)[i as int] == s@);
            return true;
        }
        i += 1;
    }
    false
}

/// The first position from `i` on where `pat` stands in `s`; the end of `s` if there is none.
pub open spec fn first_at<T>(s: Seq<T>, pat: Seq<T>, i: int) -> int
    decreases s.len() - i,
{
    if i < 0 || i >= s.len() || i + pat.len() > s.len() {
        s.len() as int
    } else if occurs_at(s, pat, i) {
        i
    } else {
        first_at(s, pat, i + 1)
    }
}

/// `first_at` neither goes back nor leaves the sequence.
pub proof fn lemma_first_at<T>(s: Seq<T>, pat: Seq<T>, i: int)
    requires
        0 <= i <= s.len(),
    ensures
        i <= first_at(s, pat, i) <= s.len(),
    decreases s.len() - i,
{
    if i < s.len() && i + pat.len() <= s.len() && !occurs_at(s, pat, i) {
        lemma_first_at(s, pat, i + 1);
    }
}

/// `first_at` finds the first occurrence of a non-empty pattern, or else there is none.
pub proof fn lemma_first_at_found<T>(s: Seq<T>, pat: Seq<T>, i: int)
    requires
        0 <= i <= s.len(),
        pat.len() > 0,
    ensures
        first_at(s, pat, i) < s.len() ==> occurs_at(s, pat, first_at(s, pat, i)),
        forall|j: int| i <= j < first_at(s, pat, i) ==> !occurs_at(s, pat, j),
        first_at(s, pat, i) == s.len() ==> forall|j: int| i <= j ==> !occurs_at(s, pat, j),
    decreases s.len() - i,
{
    if i < s.len() && i + pat.len() <= s.len() && !occurs_at(s, pat, i) {
        lemma_first_at_found(s, pat, i + 1);
    }
}

/// The first position from `from` on where the non-empty `pat` stands in `s`.
pub fn find_from(s: &[char], pat: &[char], from: usize) -> (r: usize)
    requires
        from <= s@.len(),
        pat@.len() > 0,
    ensures
        r == first_at(s@, pat@, from as int),
        from <= r <= s@.len(),
        r < s@.len() ==> r + pat@.len() <= s@.len(),
{
    let mut i: usize = from;
    while i < s.len() && pat.len() <= s.len() - i
        invariant
            from <= i <= s@.len(),
            pat@.len() > 0,
            first_at(s@, pat@, from as int) == first_at(s@, pat@, i as int),
        decreases s@.len() - i,
    {
        if found_at(s, pat, i) {
            return i;
        }
        i += 1;
    }
    s.len()
}

/// How many times `pat` stands in `s` from `i` on, counted from the left without overlap.
pub open spec fn count_from(s: Seq<char>, pat: Seq<char>, i: int) -> nat
    decreases s.len() - i,
    when pat.len() > 0
{
    if i + pat.len() > s.len() {
        0
    } else if occurs_at(s, pat, i) {
        1 + count_from(s, pat, i + pat.len())
    } else {
        count_from(s, pat, i + 1)
    }
}

/// How many times `pat` stands in `s`, counted from the left without overlap.
pub open spec fn count(s: Seq<char>, pat: Seq<char>) -> nat {
    count_from(s, pat, 0)
}

/// How many times the non-empty `pat` stands in `s`.
pub fn count_in(s: &[char], pat: &[char]) -> (r: usize)
    requires
        pat@.len() > 0,
    ensures
        r == count(s@, pat@),
        r <= s@.len(),
{
    let mut i: usize = 0;
    let mut n: usize = 0;
    while i <= s.len() && pat.len() <= s.len() - i
        invariant
            pat@.len() > 0,
            i <= s@.len(),
            n <= i,
            count(s@, pat@) == n + count_from(s@, pat@, i as int),
        decreases s@.len() - i,
    {
        if found_at(s, pat, i) {
            n += 1;
            i += pat.len();
        } else {
            i += 1;
        }
    }
    n
}

// ── Splitting ───────────────────────────────────────────────────────────────

/// The pieces of `s` from `start` on, cut at the occurrences of `pat` from `i` on.
pub open spec fn split_from(s: Seq<char>, pat: Seq<char>, start: int, i: int) -> Seq<Seq<char>>
    decreases s.len() - i,
    when pat.len() > 0
{
    if i + pat.len() > s.len() {
        seq![s.skip(start)]
    } else if occurs_at(s, pat, i) {
        seq![s.subrange(start, i)] + split_from(s, pat, i + pat.len(), i + pat.len())
    } else {
        split_from(s, pat, start, i + 1)
    }
}

/// The pieces of `s` between the occurrences of `pat`, counted from the left without overlap.
pub open spec fn pieces(s: Seq<char>, pat: Seq<char>) -> Seq<Seq<char>> {
    split_from(s, pat, 0, 0)
}

/// The pieces of `s` between the occurrences of the non-empty `pat`.
pub fn split(s: &str, pat: &str) -> (r: Vec<String>)
    requires
        pat@.len() > 0,
    ensures
        views(r@) == pieces(s@, pat@),
        r@.len() > 0,
{
    let c = to_chars(s);
    let p = to_chars(pat);
    let mut r: Vec<String> = Vec::new();
    let mut start: usize = 0;
    let mut i: usize = 0;
    while i <= c.len() && p.len() <= c.len() - i
        invariant
            p@.len() > 0,
            start <= i <= c@.len(),
            pieces(c@, p@) == views(r@) + split_from(c@, p@, start as int, i as int),
        decreases c@.len() - i,
    {
        if found_at(&c, &p, i) {
            let piece = from_chars(&c, start, i);
            let ghost before = views(r@);
            r.push(piece);
            assert(views(r@) == before.push(piece@));
            i += p.len();
            start = i;
            assert(before + (seq![piece@] + split_from(c@, p@, start as int, i as int))
                == before.push(piece@) + split_from(c@, p@, start as int, i as int));
        } else {
            i += 1;
        }
    }
    let piece = from_chars(&c, start, c.len());
    let ghost before = views(r@);
    r.push(piece);
    assert(c@.skip(start as int) == piece@);
    assert(views(r@) == before + seq![piece@]);
    r
}

/// What is split off behind a position does not depend on what stands before it.
proof fn lemma_split_shift(s: Seq<char>, pat: Seq<char>, k: int, start: int, i: int)
    requires
        pat.len() > 0,
        0 <= k <= start <= i <= s.len(),
    ensures
        split_from(s, pat, start, i) == split_from(s.skip(k), pat, start - k, i - k),
    decreases s.len() - i,
{
    let t = s.skip(k);
    if i + pat.len() > s.len() {
        assert(s.skip(start) == t.skip(start - k));
    } else {
        assert(s.subrange(i, i + pat.len()) == t.subrange(i - k, i - k + pat.len()));
        if occurs_at(s, pat, i) {
            assert(s.subrange(start, i) == t.subrange(start - k, i - k));
            lemma_split_shift(s, pat, k, i + pat.len(), i + pat.len());
        } else {
            lemma_split_shift(s, pat, k, start, i + 1);
        }
    }
}

proof fn lemma_split_first(a: Seq<char>, sep: char, x: Seq<char>, i: int)
    requires
        !a.contains(sep),
        0 <= i <= a.len(),
    ensures
        split_from(a + seq![sep] + x, seq![sep], 0, i) == seq![a] + pieces(x, seq![sep]),
    decreases a.len() - i,
{
    let s = a + seq![sep] + x;
    let pat = seq![sep];
    assert(s.subrange(i, i + 1)[0] == s[i]);
    if i < a.len() {
        assert(s[i] == a[i]);
        lemma_split_first(a, sep, x, i + 1);
    } else {
        assert(s.subrange(i, i + 1) == pat);
        assert(s.subrange(0, i) == a);
        lemma_split_shift(s, pat, i + 1, i + 1, i + 1);
        assert(s.skip(i + 1) == x);
    }
}

proof fn lemma_split_none(a: Seq<char>, sep: char, i: int)
    requires
        !a.contains(sep),
        0 <= i <= a.len(),
    ensures
        split_from(a, seq![sep], 0, i) == seq![a],
    decreases a.len() - i,
{
    if i < a.len() {
        assert(a.subrange(i, i + 1)[0] == a[i]);
        lemma_split_none(a, sep, i + 1);
    } else {
        assert(a.skip(0) == a);
    }
}

/// Splitting at a separator takes apart what it was put between.
pub proof fn lemma_pieces(a: Seq<char>, sep: char, x: Seq<char>)
    requires
        !a.contains(sep),
    ensures
        pieces(a, seq![sep]) == seq![a],
        pieces(a + seq![sep] + x, seq![sep]) == seq![a] + pieces(x, seq![sep]),
{
    lemma_split_none(a, sep, 0);
    lemma_split_first(a, sep, x, 0);
}

proof fn lemma_joined_split(s: Seq<char>, sep: char, start: int, i: int)
    requires
        0 <= start <= i <= s.len(),
    ensures
        split_from(s, seq![sep], start, i).len() > 0,
        joined(split_from(s, seq![sep], start, i), seq![sep]) == s.skip(start),
    decreases s.len() - i,
{
    let pat = seq![sep];
    if i + 1 > s.len() {
        reveal_with_fuel(joined, 2);
    } else if occurs_at(s, pat, i) {
        let rest = split_from(s, pat, i + 1, i + 1);
        lemma_joined_split(s, sep, i + 1, i + 1);
        lemma_joined_first(s.subrange(start, i), rest, pat);
        assert(s.subrange(i, i + 1) == pat);
        assert(s.skip(start) == s.subrange(start, i) + pat + s.skip(i + 1));
    } else {
        lemma_joined_split(s, sep, start, i + 1);
    }
}

/// Joining may start with the first piece.
pub proof fn lemma_joined_first(a: Seq<char>, rest: Seq<Seq<char>>, sep: Seq<char>)
    requires
        rest.len() > 0,
    ensures
        joined(seq![a] + rest, sep) == a + sep + joined(rest, sep),
    decreases rest.len(),
{
    let all = seq![a] + rest;
    assert(all.drop_last() == seq![a] + rest.drop_last());
    if rest.len() == 1 {
        assert(all.drop_last() == seq![a]);
        reveal_with_fuel(joined, 2);
    } else {
        lemma_joined_first(a, rest.drop_last(), sep);
        assert(a + sep + joined(rest.drop_last(), sep) + sep + rest.last() == a + sep + (joined(
            rest.drop_last(),
            sep,
        ) + sep + rest.last()));
    }
}

/// A text without an empty line.
pub open spec fn unbroken(p: Seq<char>) -> bool {
    forall|j: int| !#[trigger] occurs_at(p, "\n\n"@, j)
}

/// A text that does not end with a line feed.
pub open spec fn firm(p: Seq<char>) -> bool {
    p.len() > 0 ==> p.last() != '\n'
}

/// The first of two line feeds stands where the two do.
proof fn lemma_line_feeds(s: Seq<char>, j: int)
    ensures
        "\n\n"@ == seq!['\n', '\n'],
        occurs_at(s, "\n\n"@, j) <==> 0 <= j && j + 2 <= s.len() && s[j] == '\n' && s[j + 1] == '\n',
{
    reveal_strlit("\n\n");
    let b = "\n\n"@;
    assert(b =~= seq!['\n', '\n']);
    if 0 <= j && j + 2 <= s.len() {
        let t = s.subrange(j, j + 2);
        assert(t[0] == s[j] && t[1] == s[j + 1]);
        if s[j] == '\n' && s[j + 1] == '\n' {
            assert(t =~= b);
        }
    }
}

proof fn lemma_paragraphs_from(s: Seq<char>, start: int, i: int)
    requires
        0 <= start <= i,
        start <= s.len(),
        forall|j: int| start <= j < i ==> !#[trigger] occurs_at(s, "\n\n"@, j),
    ensures
        ({
            let q = split_from(s, "\n\n"@, start, i);
            &&& q.len() > 0
            &&& forall|k: int| 0 <= k < q.len() ==> unbroken(#[trigger] q[k])
            &&& forall|k: int| 0 <= k < q.len() - 1 ==> firm(#[trigger] q[k])
        }),
    decreases s.len() - i,
{
    let b = "\n\n"@;
    lemma_line_feeds(s, i);
    let q = split_from(s, b, start, i);
    if i + 2 > s.len() {
        let p = s.skip(start);
        assert forall|j: int| !#[trigger] occurs_at(p, b, j) by {
            lemma_line_feeds(p, j);
            lemma_line_feeds(s, start + j);
            if occurs_at(p, b, j) {
                assert(occurs_at(s, b, start + j));
            }
        }
        assert(unbroken(q[0]));
    } else if occurs_at(s, b, i) {
        let p = s.subrange(start, i);
        assert forall|j: int| !#[trigger] occurs_at(p, b, j) by {
            lemma_line_feeds(p, j);
            lemma_line_feeds(s, start + j);
            if occurs_at(p, b, j) {
                assert(occurs_at(s, b, start + j));
            }
        }
        if i > start && s[i - 1] == '\n' {
            lemma_line_feeds(s, i - 1);
            assert(occurs_at(s, b, i - 1));
        }
        let rest = split_from(s, b, i + 2, i + 2);
        lemma_paragraphs_from(s, i + 2, i + 2);
        assert(q =~= seq![p] + rest);
        assert(unbroken(p) && firm(p));
        assert forall|k: int| 0 <= k < q.len() implies unbroken(#[trigger] q[k]) by {
            if k > 0 {
                assert(q[k] == rest[k - 1]);
            }
        }
        assert forall|k: int| 0 <= k < q.len() - 1 implies firm(#[trigger] q[k]) by {
            if k > 0 {
                assert(q[k] == rest[k - 1]);
            }
        }
    } else {
        lemma_paragraphs_from(s, start, i + 1);
    }
}

/// The paragraphs of a text hold no empty line, and none but the last one ends with a line
/// feed.
pub proof fn lemma_paragraphs(s: Seq<char>)
    ensures
        pieces(s, "\n\n"@).len() > 0,
        forall|k: int|
            0 <= k < pieces(s, "\n\n"@).len() ==> unbroken(#[trigger] pieces(s, "\n\n"@)[k]),
        forall|k: int|
            0 <= k < pieces(s, "\n\n"@).len() - 1 ==> firm(#[trigger] pieces(s, "\n\n"@)[k]),
{
    lemma_paragraphs_from(s, 0, 0);
}

proof fn lemma_unbroken_from(s: Seq<char>, i: int)
    requires
        unbroken(s),
        0 <= i,
    ensures
        split_from(s, "\n\n"@, 0, i) == seq![s],
    decreases s.len() - i,
{
    lemma_line_feeds(s, i);
    if i + 2 > s.len() {
        assert(s.skip(0) =~= s);
    } else {
        assert(!occurs_at(s, "\n\n"@, i));
        lemma_unbroken_from(s, i + 1);
    }
}

proof fn lemma_first_paragraph(p: Seq<char>, x: Seq<char>, i: int)
    requires
        unbroken(p),
        firm(p),
        0 <= i <= p.len(),
    ensures
        split_from(p + "\n\n"@ + x, "\n\n"@, 0, i) == seq![p] + pieces(x, "\n\n"@),
    decreases p.len() - i,
{
    let b = "\n\n"@;
    let s = p + b + x;
    lemma_line_feeds(s, i);
    if i < p.len() {
        lemma_line_feeds(p, i);
        assert(s[i] == p[i]);
        if i + 1 < p.len() {
            assert(s[i + 1] == p[i + 1]);
            assert(!occurs_at(p, b, i));
        } else {
            assert(p.last() == p[i]);
        }
        assert(!occurs_at(s, b, i));
        lemma_first_paragraph(p, x, i + 1);
    } else {
        assert(s[i] == b[0] && s[i + 1] == b[1]);
        assert(occurs_at(s, b, i));
        assert(s.subrange(0, i) =~= p);
        lemma_split_shift(s, b, i + 2, i + 2, i + 2);
        assert(s.skip(i + 2) =~= x);
    }
}

/// Splitting undoes joining paragraphs.
pub proof fn splitting_undoes_joining(p: Seq<Seq<char>>)
    requires
        p.len() > 0,
        forall|k: int| 0 <= k < p.len() ==> unbroken(#[trigger] p[k]),
        forall|k: int| 0 <= k < p.len() - 1 ==> firm(#[trigger] p[k]),
    ensures
        pieces(joined(p, "\n\n"@), "\n\n"@) == p,
    decreases p.len(),
{
    if p.len() == 1 {
        assert(unbroken(p[0]));
        lemma_unbroken_from(p[0], 0);
        assert(p =~= seq![p[0]]);
    } else {
        let rest = p.drop_first();
        assert forall|k: int| 0 <= k < rest.len() implies unbroken(#[trigger] rest[k]) by {
            assert(rest[k] == p[k + 1]);
        }
        assert forall|k: int| 0 <= k < rest.len() - 1 implies firm(#[trigger] rest[k]) by {
            assert(rest[k] == p[k + 1]);
        }
        splitting_undoes_joining(rest);
        assert(unbroken(p[0]) && firm(p[0]));
        assert(p =~= seq![p[0]] + rest);
        lemma_joined_first(p[0], rest, "\n\n"@);
        lemma_first_paragraph(p[0], joined(rest, "\n\n"@), 0);
    }
}

/// Splitting at a separator and joining with it again gives the text back.
pub proof fn joining_undoes_splitting(s: Seq<char>, sep: char)
    ensures
        joined(pieces(s, seq![sep]), seq![sep]) == s,
{
    lemma_joined_split(s, sep, 0, 0);
    assert(s.skip(0) == s);
}

// ── Lists of texts ──────────────────────────────────────────────────────────

/// The texts of a list, each only where it comes first.
pub open spec fn distinct(list: Seq<Seq<char>>) -> Seq<Seq<char>>
    decreases list.len(),
{
    if list.len() == 0 {
        seq![]
    } else {
        let rest = distinct(list.drop_last());
        if rest.contains(list.last()) {
            rest
        } else {
            rest.push(list.last())
        }
    }
}

/// The first `n` items of a list, or all of them if there are fewer.
pub open spec fn first<T>(list: Seq<T>, n: int) -> Seq<T> {
    list.take(
        if list.len() < n {
            list.len() as int
        } else {
            n
        },
    )
}

/// The first `n` characters of a text, or all of them if there are fewer.
pub fn first_chars(s: &str, n: usize) -> (r: String)
    ensures
        r@ == first(s@, n as int),
{
    let c = to_chars(s);
    let m: usize = if c.len() < n {
        c.len()
    } else {
        n
    };
    let r = from_chars(&c, 0, m);
    assert(r@ == c@.take(m as int));
    r
}

/// What comes first in a list comes first in every longer one.
proof fn lemma_distinct_grows(list: Seq<Seq<char>>, k: int)
    requires
        0 <= k <= list.len(),
    ensures
        distinct(list.take(k)).len() <= distinct(list).len(),
        distinct(list.take(k)) == distinct(list).take(distinct(list.take(k)).len() as int),
    decreases list.len() - k,
{
    if k == list.len() {
        assert(list.take(k) == list);
        assert(distinct(list).take(distinct(list).len() as int) == distinct(list));
    } else {
        lemma_distinct_grows(list, k + 1);
        assert(list.take(k + 1).drop_last() == list.take(k));
        let a = distinct(list.take(k));
        let b = distinct(list.take(k + 1));
        assert(b.take(a.len() as int) == a);
        assert(distinct(list).take(b.len() as int).take(a.len() as int) == distinct(list).take(
            a.len() as int,
        ));
    }
}

/// No text comes twice in what `distinct` leaves, and none of the list is lost.
pub proof fn distinct_keeps_each_once(list: Seq<Seq<char>>)
    ensures
        distinct(list).no_duplicates(),
        forall|t: Seq<char>| distinct(list).contains(t) <==> list.contains(t),
    decreases list.len(),
{
    if list.len() > 0 {
        let rest = list.drop_last();
        distinct_keeps_each_once(rest);
        assert(list == rest.push(list.last()));
        assert forall|t: Seq<char>| distinct(list).contains(t) <==> list.contains(t) by {
            if rest.contains(t) {
                let i = rest.index_of(t);
                assert(list[i] == t);
                let j = distinct(rest).index_of(t);
                assert(distinct(list)[j] == t);
            }
            if t == list.last() {
                assert(list[list.len() - 1] == t);
                if !distinct(rest).contains(t) {
                    assert(distinct(list)[distinct(rest).len() as int] == t);
                }
            }
            if list.contains(t) {
                let i = list.index_of(t);
                if i < rest.len() {
                    assert(rest[i] == t);
                }
            }
            if distinct(list).contains(t) && !distinct(rest).contains(t) {
                assert(t == list.last());
            }
        }
    }
}

/// The first `n` texts of a list, counting each only where it comes first.
pub fn first_distinct(list: &[String], n: usize) -> (r: Vec<String>)
    ensures
        views(r@) == first(distinct(views(list@)), n as int),
{
    let mut r: Vec<String> = Vec::new();
    let ghost all = views(list@);
    let mut i: usize = 0;
    assert(all.take(0) == Seq::<Seq<char>>::empty());
    while i < list.len() && r.len() < n
        invariant
            i <= list@.len(),
            all == views(list@),
            r@.len() <= n,
            views(r@) == distinct(all.take(i as int)),
        decreases list@.len() - i,
    {
        assert(all.take(i + 1).drop_last() == all.take(i as int));
        if !listed(&r, list[i].as_str()) {
            let ghost before = views(r@);
            r.push(list[i].clone());
            assert(views(r@) == before.push(all[i as int]));
        }
        i += 1;
    }
    proof {
        assert(views(r@).len() == r@.len());
        lemma_distinct_grows(all, i as int);
        if i == list@.len() {
            assert(all.take(i as int) == all);
        }
        assert(views(r@) == first(distinct(all), n as int));
    }
    r
}

/// A copy of a list of strings.
pub fn copy_all(list: &[String]) -> (r: Vec<String>)
    ensures
        r@ == list@,
{
    let mut r: Vec<String> = Vec::new();
    let mut i: usize = 0;
    while i < list.len()
        invariant
            i <= list@.len(),
            r@ == list@.take(i as int),
        decreases list@.len() - i,
    {
        r.push(list[i].clone());
        i += 1;
    }
    r
}

// ── Numbers ─────────────────────────────────────────────────────────────────

/// The digit `d` in base ten.
pub open spec fn digit(d: nat) -> char {
    (('0' as u32) + d) as char
}

/// `n` in decimal notation.
pub open spec fn decimal(n: nat) -> Seq<char>
    decreases n,
{
    if n < 10 {
        seq![digit(n)]
    } else {
        decimal(n / 10).push(digit(n % 10))
    }
}

/// Decimal notation is made of digits.
pub proof fn lemma_decimal_digits(n: nat)
    ensures
        decimal(n).len() > 0,
        n >= 10 ==> decimal(n).len() > 1,
        forall|i: int| 0 <= i < decimal(n).len() ==> '0' <= #[trigger] decimal(n)[i] <= '9',
    decreases n,
{
    if n >= 10 {
        lemma_decimal_digits(n / 10);
    }
}

/// Different numbers have different decimal notations.
pub proof fn decimal_is_injective(m: nat, n: nat)
    requires
        decimal(m) == decimal(n),
    ensures
        m == n,
    decreases m,
{
    lemma_decimal_digits(m);
    lemma_decimal_digits(n);
    assert(decimal(m).last() == decimal(n).last());
    assert(decimal(m).last() == digit(m % 10));
    assert(decimal(n).last() == digit(n % 10));
    assert(digit(m % 10) as u32 == 48 + m % 10);
    assert(digit(n % 10) as u32 == 48 + n % 10);
    if m >= 10 && n >= 10 {
        assert(decimal(m).drop_last() == decimal(m / 10));
        assert(decimal(n).drop_last() == decimal(n / 10));
        decimal_is_injective(m / 10, n / 10);
        assert(m % 10 == n % 10);
    } else if m >= 10 {
        assert(decimal(n).len() == 1);
    } else if n >= 10 {
        assert(decimal(m).len() == 1);
    }
}

/// Texts without a separator are told apart again before the separator that follows them.
pub proof fn lemma_delimited(a: Seq<char>, x: Seq<char>, b: Seq<char>, y: Seq<char>, sep: char)
    requires
        !a.contains(sep),
        !b.contains(sep),
        a + seq![sep] + x == b + seq![sep] + y,
    ensures
        a == b,
        x == y,
{
    let l = a + seq![sep] + x;
    let r = b + seq![sep] + y;
    assert(l[a.len() as int] == sep);
    assert(r[b.len() as int] == sep);
    if a.len() < b.len() {
        assert(r[a.len() as int] == b[a.len() as int]);
        assert(b.contains(sep));
    } else if b.len() < a.len() {
        assert(l[b.len() as int] == a[b.len() as int]);
        assert(a.contains(sep));
    }
    assert forall|i: int| 0 <= i < a.len() implies a[i] == b[i] by {
        assert(l[i] == a[i]);
        assert(r[i] == b[i]);
    }
    assert(a == b);
    assert(x == l.skip(a.len() as int + 1));
    assert(y == r.skip(b.len() as int + 1));
}

/// `n` in decimal notation.
pub fn show_wide(n: u64) -> (r: String)
    ensures
        r@ == decimal(n as nat),
    decreases n,
{
    if n < 10 {
        let mut r = String::new();
        r.push((0x30 + n as u8) as char);
        r
    } else {
        let mut r = show_wide(n / 10);
        r.push((0x30 + (n % 10) as u8) as char);
        r
    }
}

/// `n` in decimal notation.
pub fn show(n: usize) -> (r: String)
    ensures
        r@ == decimal(n as nat),
{
    show_wide(n as u64)
}

// ── Laws ────────────────────────────────────────────────────────────────────

/// Whatever surrounds a text, it stands in the whole; it begins what it is put before, and ends
/// what it is put behind.
pub proof fn what_is_put_in_is_found(a: Seq<char>, pat: Seq<char>, b: Seq<char>)
    ensures
        contains(a + pat + b, pat),
        starts_with(pat + b, pat),
        ends_with(a + pat, pat),
{
    assert((a + pat + b).subrange(a.len() as int, (a.len() + pat.len()) as int) =~= pat);
    assert(occurs_at(a + pat + b, pat, a.len() as int));
    assert((pat + b).subrange(0, pat.len() as int) =~= pat);
    assert((a + pat).subrange(a.len() as int, (a.len() + pat.len()) as int) =~= pat);
}

/// What is found in a text has something before it and something behind it.
pub proof fn what_is_found_was_put_in(s: Seq<char>, pat: Seq<char>) -> (around: (
    Seq<char>,
    Seq<char>,
))
    requires
        contains(s, pat),
    ensures
        s == around.0 + pat + around.1,
        starts_with(s, pat) ==> s == pat + s.skip(pat.len() as int),
        ends_with(s, pat) ==> s == s.take(s.len() - pat.len()) + pat,
{
    let i = choose|i: int| occurs_at(s, pat, i);
    assert(s =~= s.take(i) + s.subrange(i, i + pat.len()) + s.skip(i + pat.len()));
    if starts_with(s, pat) {
        assert(s =~= s.subrange(0, pat.len() as int) + s.skip(pat.len() as int));
    }
    if ends_with(s, pat) {
        let n = s.len() - pat.len();
        assert(s =~= s.take(n) + s.subrange(n, n + pat.len()));
    }
    (s.take(i), s.skip(i + pat.len()))
}

/// Blanks, tabulators and line ends are white space, and so is the blank that does not break;
/// what is printed of ASCII is not.
pub proof fn white_space_is_what_is_not_printed(c: char)
    ensures
        c == ' ' || c == '\t' || c == '\n' || c == '\r' || c == '\u{a0}' ==> space(c),
        '!' <= c <= '~' ==> !space(c),
{
}

/// White space before a text goes, and the text stays.
pub proof fn lemma_trim_start(a: Seq<char>, x: Seq<char>)
    requires
        forall|i: int| 0 <= i < a.len() ==> space(#[trigger] a[i]),
        x.len() > 0 ==> !space(x[0]),
    ensures
        trim_start(a + x) == x,
    decreases a.len(),
{
    if a.len() == 0 {
        assert(a + x =~= x);
    } else {
        assert((a + x).drop_first() =~= a.drop_first() + x);
        assert(space((a + x)[0]));
        lemma_trim_start(a.drop_first(), x);
    }
}

proof fn lemma_trim_end(x: Seq<char>, b: Seq<char>)
    requires
        forall|i: int| 0 <= i < b.len() ==> space(#[trigger] b[i]),
        x.len() > 0 ==> !space(x.last()),
    ensures
        trim_end(x + b) == x,
    decreases b.len(),
{
    if b.len() == 0 {
        assert(x + b =~= x);
    } else {
        assert((x + b).drop_last() =~= x + b.drop_last());
        assert(space((x + b).last()));
        lemma_trim_end(x, b.drop_last());
    }
}

/// Trimming takes the white space off both ends of a text, and nothing else.
pub proof fn trimming_takes_white_space_off(a: Seq<char>, x: Seq<char>, b: Seq<char>)
    requires
        forall|i: int| 0 <= i < a.len() ==> space(#[trigger] a[i]),
        forall|i: int| 0 <= i < b.len() ==> space(#[trigger] b[i]),
        x.len() > 0 ==> !space(x[0]) && !space(x.last()),
    ensures
        trimmed(a + x + b) == x,
{
    if x.len() == 0 {
        assert(a + x + b =~= (a + b) + Seq::<char>::empty());
        lemma_trim_start(a + b, Seq::<char>::empty());
        assert(x =~= Seq::<char>::empty());
    } else {
        assert(a + x + b =~= a + (x + b));
        lemma_trim_start(a, x + b);
        lemma_trim_end(x, b);
    }
}

/// A text is blank exactly if it is white space throughout.
pub proof fn blank_texts_are_white_space(s: Seq<char>)
    ensures
        trimmed(s).len() == 0 <==> forall|i: int| 0 <= i < s.len() ==> space(#[trigger] s[i]),
    decreases s.len(),
{
    if forall|i: int| 0 <= i < s.len() ==> space(#[trigger] s[i]) {
        lemma_trim_start(s, Seq::<char>::empty());
        assert(s + Seq::<char>::empty() =~= s);
    } else {
        lemma_not_blank(s);
    }
}

proof fn lemma_not_blank(s: Seq<char>)
    requires
        exists|i: int| 0 <= i < s.len() && !space(#[trigger] s[i]),
    ensures
        trimmed(s).len() > 0,
    decreases s.len(),
{
    let i = choose|i: int| 0 <= i < s.len() && !space(#[trigger] s[i]);
    if space(s[0]) {
        assert(!space(s.drop_first()[i - 1]));
        lemma_not_blank(s.drop_first());
    } else {
        lemma_end_kept(s);
    }
}

proof fn lemma_end_kept(s: Seq<char>)
    requires
        s.len() > 0,
        !space(s[0]),
    ensures
        trim_end(s).len() > 0,
    decreases s.len(),
{
    if space(s.last()) {
        assert(s.drop_last()[0] == s[0]);
        lemma_end_kept(s.drop_last());
    }
}

/// A text without white space is one word, or none if it is empty.
pub proof fn what_has_no_white_space_is_one_word(w: Seq<char>)
    requires
        forall|i: int| 0 <= i < w.len() ==> !space(#[trigger] w[i]),
    ensures
        words(w) == if w.len() == 0 {
            Seq::<Seq<char>>::empty()
        } else {
            seq![w]
        },
{
    if w.len() > 0 {
        lemma_one_word(w);
        assert(w.take(w.len() as int) =~= w);
        assert(w.skip(w.len() as int) =~= Seq::<char>::empty());
        reveal_with_fuel(words, 2);
        assert(seq![w] + words(Seq::<char>::empty()) =~= seq![w]);
    }
}

proof fn lemma_one_word(w: Seq<char>)
    requires
        forall|i: int| 0 <= i < w.len() ==> !space(#[trigger] w[i]),
    ensures
        word_len(w) == w.len(),
    decreases w.len(),
{
    if w.len() > 0 {
        assert(!space(w[0]));
        assert forall|i: int| 0 <= i < w.drop_first().len() implies !space(
            #[trigger] w.drop_first()[i],
        ) by {
            assert(w.drop_first()[i] == w[i + 1]);
        }
        lemma_one_word(w.drop_first());
    }
}

/// Where a word ends does not depend on what follows the white space behind it.
proof fn lemma_word_ends(a: Seq<char>, c: char, b: Seq<char>)
    requires
        space(c),
    ensures
        word_len(a + seq![c] + b) == word_len(a),
        word_len(a) <= a.len(),
    decreases a.len(),
{
    let s = a + seq![c] + b;
    if a.len() == 0 {
        assert(s[0] == c);
    } else {
        assert(s[0] == a[0]);
        assert(s.drop_first() =~= a.drop_first() + seq![c] + b);
        lemma_word_ends(a.drop_first(), c, b);
    }
}

/// White space separates words: those of two texts with white space between them are the words
/// of the one and then the words of the other.
pub proof fn words_are_separated_by_white_space(a: Seq<char>, c: char, b: Seq<char>)
    requires
        space(c),
    ensures
        words(a + seq![c] + b) == words(a) + words(b),
    decreases a.len(),
{
    let s = a + seq![c] + b;
    if a.len() == 0 {
        assert(s[0] == c);
        assert(s.drop_first() =~= b);
        assert(words(a) + words(b) =~= words(b));
    } else if space(a[0]) {
        assert(s[0] == a[0]);
        assert(s.drop_first() =~= a.drop_first() + seq![c] + b);
        words_are_separated_by_white_space(a.drop_first(), c, b);
    } else {
        assert(s[0] == a[0]);
        let n = word_len(a);
        lemma_word_ends(a, c, b);
        assert(n > 0);
        assert(s.take(n as int) =~= a.take(n as int));
        assert(s.skip(n as int) =~= a.skip(n as int) + seq![c] + b);
        words_are_separated_by_white_space(a.skip(n as int), c, b);
        assert(seq![a.take(n as int)] + (words(a.skip(n as int)) + words(b)) =~= (seq![
            a.take(n as int),
        ] + words(a.skip(n as int))) + words(b));
    }
}

/// Joining puts the separator before each piece but the first.
pub proof fn joining_puts_the_separator_between(p: Seq<Seq<char>>, x: Seq<char>, sep: Seq<char>)
    ensures
        joined(p.push(x), sep) == if p.len() == 0 {
            x
        } else {
            joined(p, sep) + sep + x
        },
        joined(Seq::<Seq<char>>::empty(), sep) == Seq::<char>::empty(),
{
    assert(p.push(x).drop_last() =~= p);
}

proof fn lemma_pieces_from(s: Seq<char>, pat: Seq<char>, start: int, i: int)
    requires
        pat.len() > 0,
        0 <= start <= i,
        start <= s.len(),
        forall|j: int| start <= j < i ==> !#[trigger] occurs_at(s, pat, j),
    ensures
        ({
            let q = split_from(s, pat, start, i);
            &&& q.len() > 0
            &&& joined(q, pat) == s.skip(start)
            &&& forall|k: int| 0 <= k < q.len() ==> !contains(#[trigger] q[k], pat)
            &&& q.len() == count_from(s, pat, i) + 1
        }),
    decreases s.len() - i,
{
    let q = split_from(s, pat, start, i);
    if i + pat.len() > s.len() {
        reveal_with_fuel(joined, 2);
        let t = s.skip(start);
        assert forall|j: int| !occurs_at(t, pat, j) by {
            if occurs_at(t, pat, j) {
                assert(s.subrange(start + j, start + j + pat.len()) =~= t.subrange(j, j + pat.len()));
                assert(occurs_at(s, pat, start + j));
            }
        }
    } else if occurs_at(s, pat, i) {
        let n = i + pat.len();
        let rest = split_from(s, pat, n, n);
        let t = s.subrange(start, i);
        lemma_pieces_from(s, pat, n, n);
        lemma_joined_first(t, rest, pat);
        assert(s.skip(start) =~= t + s.subrange(i, n) + s.skip(n));
        assert forall|j: int| !occurs_at(t, pat, j) by {
            if occurs_at(t, pat, j) {
                assert(s.subrange(start + j, start + j + pat.len()) =~= t.subrange(j, j + pat.len()));
                assert(occurs_at(s, pat, start + j));
            }
        }
        assert forall|k: int| 0 <= k < q.len() implies !contains(#[trigger] q[k], pat) by {
            if k > 0 {
                assert(q[k] == rest[k - 1]);
            }
        }
    } else {
        lemma_pieces_from(s, pat, start, i + 1);
    }
}

/// Splitting loses nothing and leaves no separator: the pieces joined with it are the text again,
/// it stands in none of them, and they are one more than it was counted.
pub proof fn splitting_loses_nothing(s: Seq<char>, pat: Seq<char>)
    requires
        pat.len() > 0,
    ensures
        pieces(s, pat).len() == count(s, pat) + 1,
        joined(pieces(s, pat), pat) == s,
        forall|k: int| 0 <= k < pieces(s, pat).len() ==> !contains(#[trigger] pieces(s, pat)[k], pat),
{
    lemma_pieces_from(s, pat, 0, 0);
    assert(s.skip(0) =~= s);
}

/// The first items of a list are its beginning, and all of it where it is not longer.
pub proof fn first_items_are_the_beginning<T>(list: Seq<T>, n: int)
    requires
        0 <= n,
    ensures
        first(list, n).len() == if list.len() < n {
            list.len() as int
        } else {
            n
        },
        forall|i: int| 0 <= i < first(list, n).len() ==> #[trigger] first(list, n)[i] == list[i],
        list.len() <= n ==> first(list, n) == list,
{
    if list.len() <= n {
        assert(first(list, n) =~= list);
    }
}

proof fn lemma_pieces_before(s: Seq<char>, pat: Seq<char>, i: int)
    requires
        pat.len() > 0,
        0 <= i <= s.len(),
        forall|j: int| 0 <= j < i ==> !#[trigger] occurs_at(s, pat, j),
    ensures
        ({
            let f = first_at(s, pat, i);
            if f < s.len() {
                split_from(s, pat, 0, i) == seq![s.take(f)] + pieces(s.skip(f + pat.len()), pat)
            } else {
                split_from(s, pat, 0, i) == seq![s]
            }
        }),
    decreases s.len() - i,
{
    if i + pat.len() > s.len() {
        assert(s.skip(0) =~= s);
    } else if occurs_at(s, pat, i) {
        let n = i + pat.len();
        lemma_split_shift(s, pat, n, n, n);
        assert(s.subrange(0, i) =~= s.take(i));
    } else {
        lemma_pieces_before(s, pat, i + 1);
    }
}

/// A text is first split where the separator first stands: what precedes it is the first piece,
/// and the pieces of what follows it are the others.
pub proof fn texts_are_split_where_the_separator_stands(s: Seq<char>, pat: Seq<char>, f: int)
    requires
        pat.len() > 0,
        occurs_at(s, pat, f),
        forall|j: int| 0 <= j < f ==> !#[trigger] occurs_at(s, pat, j),
    ensures
        pieces(s, pat) == seq![s.take(f)] + pieces(s.skip(f + pat.len()), pat),
{
    lemma_pieces_before(s, pat, 0);
    lemma_first_at_found(s, pat, 0);
    lemma_first_at(s, pat, 0);
    let g = first_at(s, pat, 0);
    assert(g == f) by {
        if g < f {
            assert(occurs_at(s, pat, g));
        } else if g > f {
            assert(!occurs_at(s, pat, f));
        }
    }
}

/// A text in which the separator does not stand is one piece.
pub proof fn texts_without_the_separator_stay_whole(s: Seq<char>, pat: Seq<char>)
    requires
        pat.len() > 0,
        !contains(s, pat),
    ensures
        pieces(s, pat) == seq![s],
{
    lemma_pieces_before(s, pat, 0);
    lemma_first_at_found(s, pat, 0);
}

/// A number is written digit by digit, the last one behind the others.
pub proof fn numbers_are_written_digit_by_digit(n: nat, d: nat)
    requires
        d < 10,
    ensures
        decimal(d) == seq![(0x30 + d) as char],
        n > 0 ==> decimal((10 * n + d) as nat) == decimal(n).push((0x30 + d) as char),
{
    if n > 0 {
        assert((10 * n + d) / 10 == n);
        assert((10 * n + d) % 10 == d);
    }
}

/// What stands first behind a text stands as far behind it in the whole.
pub proof fn lemma_first_behind<T>(a: Seq<T>, b: Seq<T>, pat: Seq<T>, i: int)
    requires
        0 <= i <= b.len(),
    ensures
        first_at(a + b, pat, a.len() + i) == a.len() + first_at(b, pat, i),
    decreases b.len() - i,
{
    let s = a + b;
    let n = a.len() + i;
    if n + pat.len() <= s.len() {
        assert(s.subrange(n, n + pat.len()) =~= b.subrange(i, i + pat.len()));
    }
    if i < b.len() && !occurs_at(b, pat, i) {
        lemma_first_behind(a, b, pat, i + 1);
    }
}

} // verus!
