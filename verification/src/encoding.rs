//! Percent encoding of query strings.

use crate::bindings::unicode;
use crate::text;
use vstd::prelude::*;
use vstd::utf8::*;

verus! {

/// Letters, digits and the four marks that stand for themselves.
pub open spec fn unreserved(b: u8) -> bool {
    ||| 0x30 <= b <= 0x39
    ||| 0x41 <= b <= 0x5a
    ||| 0x61 <= b <= 0x7a
    ||| b == 0x2d
    ||| b == 0x5f
    ||| b == 0x2e
    ||| b == 0x7e
}

/// The hexadecimal digit of a number below sixteen.
pub open spec fn hex(d: u8) -> char {
    if d < 10 {
        (0x30 + d) as char
    } else {
        (0x37 + d) as char
    }
}

/// How one byte is written.
pub open spec fn encoded_byte(b: u8) -> Seq<char> {
    if unreserved(b) {
        seq![b as char]
    } else if b == 0x20 {
        seq!['+']
    } else {
        seq!['%', hex(b / 16), hex(b % 16)]
    }
}

/// How bytes are written, one after the other.
pub open spec fn encoded_bytes(bytes: Seq<u8>) -> Seq<char>
    decreases bytes.len(),
{
    if bytes.len() == 0 {
        seq![]
    } else {
        encoded_byte(bytes[0]) + encoded_bytes(bytes.drop_first())
    }
}

/// A text percent-encoded.
pub open spec fn encoded(s: Seq<char>) -> Seq<char> {
    encoded_bytes(encode_utf8(s))
}

/// A text percent-encoded, with a plus sign for a space.
pub fn urlencoding(s: &str) -> (r: String)
    ensures
        r@ == encoded(s@),
{
    let b = s.as_bytes();
    let mut r = String::new();
    let mut i: usize = 0;
    assert(b@.skip(0) == b@);
    assert(r@ + encoded_bytes(b@) == encoded_bytes(b@));
    while i < b.len()
        invariant
            i <= b@.len(),
            encoded_bytes(b@) == r@ + encoded_bytes(b@.skip(i as int)),
        decreases b@.len() - i,
    {
        let ghost before = r@;
        let c: u8 = b[i];
        assert(b@.skip(i as int).drop_first() == b@.skip(i + 1));
        if (0x30 <= c && c <= 0x39) || (0x41 <= c && c <= 0x5a) || (0x61 <= c && c <= 0x7a) || c
            == 0x2d || c == 0x5f || c == 0x2e || c == 0x7e {
            r.push(c as char);
        } else if c == 0x20 {
            r.push('+');
        } else {
            r.push('%');
            r.push(write_hex(c / 16));
            r.push(write_hex(c % 16));
        }
        assert(r@ == before + encoded_byte(c));
        assert(before + (encoded_byte(c) + encoded_bytes(b@.skip(i + 1))) == r@ + encoded_bytes(
            b@.skip(i + 1),
        ));
        i += 1;
    }
    assert(b@.skip(i as int) == Seq::<u8>::empty());
    r
}

/// The hexadecimal digit of a number below sixteen.
fn write_hex(d: u8) -> (r: char)
    requires
        d < 16,
    ensures
        r == hex(d),
{
    if d < 10 {
        (0x30 + d) as char
    } else {
        (0x37 + d) as char
    }
}

/// The value of a hexadecimal digit in either case.
pub open spec fn hex_value(c: char) -> Option<u8> {
    if '0' <= c <= '9' {
        Some((c as u32 - 0x30) as u8)
    } else if 'a' <= c <= 'f' {
        Some((c as u32 - 0x57) as u8)
    } else if 'A' <= c <= 'F' {
        Some((c as u32 - 0x37) as u8)
    } else {
        None
    }
}

/// The byte that two characters stand for: two hexadecimal digits, or a plus sign and one.
pub open spec fn pair_value(a: char, b: char) -> Option<u8> {
    match hex_value(b) {
        Some(y) => if a == '+' {
            Some(y)
        } else {
            match hex_value(a) {
                Some(x) => Some((x * 16 + y) as u8),
                None => None,
            }
        },
        None => None,
    }
}

/// The character at a position, or a zero behind the end.
pub open spec fn char_or_zero(s: Seq<char>, i: int) -> char {
    if 0 <= i < s.len() {
        s[i]
    } else {
        '0'
    }
}

/// What follows the first `n` characters, if anything does.
pub open spec fn behind(s: Seq<char>, n: int) -> Seq<char> {
    if n <= s.len() {
        s.skip(n)
    } else {
        seq![]
    }
}

/// The bytes of a text with its percent signs resolved and a space for each plus sign. A percent
/// sign that is not followed by a byte stays.
pub open spec fn decoded_bytes(s: Seq<char>) -> Seq<u8>
    decreases s.len(),
{
    if s.len() == 0 {
        seq![]
    } else if s[0] == '%' {
        let (a, b) = (char_or_zero(s, 1), char_or_zero(s, 2));
        (match pair_value(a, b) {
            Some(v) => seq![v],
            None => encode_utf8(seq!['%', a, b]),
        }) + decoded_bytes(behind(s, 3))
    } else if s[0] == '+' {
        seq![0x20u8] + decoded_bytes(s.drop_first())
    } else {
        encode_utf8(seq![s[0]]) + decoded_bytes(s.drop_first())
    }
}

/// A text with its percent signs and plus signs resolved, the bytes read as UTF-8. What is no
/// UTF-8 is replaced.
pub open spec fn decoded(s: Seq<char>) -> Seq<char> {
    let bytes = decoded_bytes(s);
    if valid_utf8(bytes) {
        decode_utf8(bytes)
    } else {
        unicode::lossy(bytes)
    }
}

/// The value of a hexadecimal digit in either case.
fn read_hex(c: char) -> (r: Option<u8>)
    ensures
        r == hex_value(c),
        r matches Some(v) ==> v < 16,
{
    if '0' <= c && c <= '9' {
        Some((c as u32 - 0x30) as u8)
    } else if 'a' <= c && c <= 'f' {
        Some((c as u32 - 0x57) as u8)
    } else if 'A' <= c && c <= 'F' {
        Some((c as u32 - 0x37) as u8)
    } else {
        None
    }
}

/// The byte that two characters stand for: two hexadecimal digits, or a plus sign and one.
fn read_pair(a: char, b: char) -> (r: Option<u8>)
    ensures
        r == pair_value(a, b),
{
    match read_hex(b) {
        Some(y) => if a == '+' {
            Some(y)
        } else {
            match read_hex(a) {
                Some(x) => Some(x * 16 + y),
                None => None,
            }
        },
        None => None,
    }
}

/// Adds the bytes of a text.
fn push_text(out: &mut Vec<u8>, t: &str)
    ensures
        final(out)@ == old(out)@ + encode_utf8(t@),
{
    let b = t.as_bytes();
    let ghost start = out@;
    let mut i: usize = 0;
    assert(start + b@.take(0) =~= start);
    while i < b.len()
        invariant
            i <= b@.len(),
            out@ == start + b@.take(i as int),
        decreases b@.len() - i,
    {
        out.push(b[i]);
        assert(b@.take(i + 1) =~= b@.take(i as int).push(b@[i as int]));
        assert(out@ =~= start + b@.take(i + 1));
        i += 1;
    }
    assert(b@.take(i as int) =~= b@);
}

/// Adds what a percent sign and the two characters behind it stand for.
fn push_pair(out: &mut Vec<u8>, a: char, b: char)
    ensures
        final(out)@ == old(out)@ + match pair_value(a, b) {
            Some(v) => seq![v],
            None => encode_utf8(seq!['%', a, b]),
        },
{
    match read_pair(a, b) {
        Some(v) => {
            out.push(v);
        },
        None => {
            let mut t = String::new();
            t.push('%');
            t.push(a);
            t.push(b);
            assert(t@ =~= seq!['%', a, b]);
            push_text(out, t.as_str());
        },
    }
}

/// Adds what a character other than a percent sign stands for.
fn push_char(out: &mut Vec<u8>, c: char)
    ensures
        final(out)@ == old(out)@ + if c == '+' {
            seq![0x20u8]
        } else {
            encode_utf8(seq![c])
        },
{
    if c == '+' {
        out.push(0x20);
    } else {
        let mut t = String::new();
        t.push(c);
        assert(t@ =~= seq![c]);
        push_text(out, t.as_str());
    }
}

/// The bytes of a text with its percent signs and plus signs resolved.
fn decode_bytes(s: &str) -> (r: Vec<u8>)
    ensures
        r@ == decoded_bytes(s@),
{
    let c = text::to_chars(s);
    let mut r: Vec<u8> = Vec::new();
    let mut i: usize = 0;
    assert(c@.skip(0) == c@);
    assert(r@ + decoded_bytes(c@) == decoded_bytes(c@));
    while i < c.len()
        invariant
            i <= c@.len(),
            c@ == s@,
            decoded_bytes(c@) == r@ + decoded_bytes(c@.skip(i as int)),
        decreases c@.len() - i,
    {
        let ghost before = r@;
        let ghost rest = c@.skip(i as int);
        if c[i] == '%' {
            let a = if c.len() - i > 1 {
                c[i + 1]
            } else {
                '0'
            };
            let b = if c.len() - i > 2 {
                c[i + 2]
            } else {
                '0'
            };
            let n: usize = if c.len() - i >= 3 {
                i + 3
            } else {
                c.len()
            };
            assert(behind(rest, 3) =~= c@.skip(n as int));
            push_pair(&mut r, a, b);
            let ghost piece = match pair_value(a, b) {
                Some(v) => seq![v],
                None => encode_utf8(seq!['%', a, b]),
            };
            assert(before + (piece + decoded_bytes(c@.skip(n as int))) == r@ + decoded_bytes(
                c@.skip(n as int),
            ));
            i = n;
        } else {
            push_char(&mut r, c[i]);
            let ghost piece = if c@[i as int] == '+' {
                seq![0x20u8]
            } else {
                encode_utf8(seq![c@[i as int]])
            };
            assert(rest.drop_first() == c@.skip(i + 1));
            assert(before + (piece + decoded_bytes(c@.skip(i + 1))) == r@ + decoded_bytes(
                c@.skip(i + 1),
            ));
            i += 1;
        }
    }
    assert(c@.skip(i as int) == Seq::<char>::empty());
    r
}

/// A text with its percent signs and plus signs resolved.
pub fn urlencoding_decode(s: &str) -> (r: String)
    ensures
        r@ == decoded(s@),
{
    unicode::from_utf8_lossy(&decode_bytes(s))
}

// ── Laws ────────────────────────────────────────────────────────────────────

proof fn lemma_decode_byte(b: u8, t: Seq<char>)
    ensures
        decoded_bytes(encoded_byte(b) + t) == seq![b] + decoded_bytes(t),
{
    let e = encoded_byte(b);
    let s = e + t;
    if unreserved(b) {
        assert(s[0] == e[0] && s.drop_first() =~= t);
        text::lemma_ascii_byte(b as char);
        assert(encode_utf8(seq![s[0]]) =~= seq![b]);
    } else if b == 0x20 {
        assert(s[0] == e[0] && s.drop_first() =~= t);
    } else {
        assert(s[0] == '%' && s[1] == hex(b / 16) && s[2] == hex(b % 16));
        assert(hex_value(hex(b / 16)) == Some((b / 16) as u8));
        assert(hex_value(hex(b % 16)) == Some((b % 16) as u8));
        assert(pair_value(s[1], s[2]) == Some(b));
        assert(behind(s, 3) =~= t);
    }
}

proof fn lemma_decode_bytes(bytes: Seq<u8>)
    ensures
        decoded_bytes(encoded_bytes(bytes)) == bytes,
    decreases bytes.len(),
{
    if bytes.len() > 0 {
        lemma_decode_bytes(bytes.drop_first());
        lemma_decode_byte(bytes[0], encoded_bytes(bytes.drop_first()));
        assert(seq![bytes[0]] + bytes.drop_first() =~= bytes);
    }
}

/// Decoding undoes encoding.
pub proof fn decoding_undoes_encoding(s: Seq<char>)
    ensures
        decoded(encoded(s)) == s,
{
    lemma_decode_bytes(encode_utf8(s));
    encode_utf8_valid_utf8(s);
    encode_utf8_decode_utf8(s);
}

/// A character that may stand in a query string as it is.
pub open spec fn query_char(c: char) -> bool {
    c == '%' || c == '+' || exists|b: u8| unreserved(b) && c == #[trigger] (b as char)
}

proof fn lemma_encoded_chars(bytes: Seq<u8>)
    ensures
        forall|i: int|
            0 <= i < encoded_bytes(bytes).len() ==> query_char(#[trigger] encoded_bytes(bytes)[i]),
    decreases bytes.len(),
{
    if bytes.len() > 0 {
        lemma_encoded_chars(bytes.drop_first());
        let b = bytes[0];
        let head = encoded_byte(b);
        let tail = encoded_bytes(bytes.drop_first());
        let all = encoded_bytes(bytes);
        assert forall|i: int| 0 <= i < all.len() implies query_char(#[trigger] all[i]) by {
            if i < head.len() {
                assert(all[i] == head[i]);
                if unreserved(b) {
                    assert(all[i] == b as char);
                } else if b != 0x20 {
                    let d1 = (b / 16) as u8;
                    let d2 = (b % 16) as u8;
                    let u1 = if d1 < 10 {
                        (0x30 + d1) as u8
                    } else {
                        (0x37 + d1) as u8
                    };
                    let u2 = if d2 < 10 {
                        (0x30 + d2) as u8
                    } else {
                        (0x37 + d2) as u8
                    };
                    assert(unreserved(u1) && hex(d1) == u1 as char);
                    assert(unreserved(u2) && hex(d2) == u2 as char);
                }
            } else {
                assert(all[i] == tail[i - head.len()]);
            }
        }
    }
}

/// What is encoded holds only characters that may stand in a query string.
pub proof fn encoding_leaves_query_characters(s: Seq<char>)
    ensures
        forall|i: int| 0 <= i < encoded(s).len() ==> query_char(#[trigger] encoded(s)[i]),
{
    lemma_encoded_chars(encode_utf8(s));
}

proof fn lemma_encoded_concat(a: Seq<u8>, b: Seq<u8>)
    ensures
        encoded_bytes(a + b) == encoded_bytes(a) + encoded_bytes(b),
    decreases a.len(),
{
    if a.len() == 0 {
        assert(a + b =~= b);
        assert(encoded_bytes(a) + encoded_bytes(b) =~= encoded_bytes(b));
    } else {
        assert((a + b)[0] == a[0]);
        assert((a + b).drop_first() =~= a.drop_first() + b);
        lemma_encoded_concat(a.drop_first(), b);
        assert(encoded_bytes(a + b) =~= encoded_bytes(a) + encoded_bytes(b));
    }
}

/// A text is encoded character by character: letters, digits and the marks `-`, `_`, `.` and `~`
/// stay as they are, a space becomes a plus sign, and each byte of any other character a percent
/// sign with two digits.
pub proof fn texts_are_encoded_character_by_character(s: Seq<char>, c: char)
    ensures
        encoded(s.push(c)) == encoded(s) + encoded(seq![c]),
        ('0' <= c <= '9') || ('A' <= c <= 'Z') || ('a' <= c <= 'z') || c == '-' || c == '_' || c
            == '.' || c == '~' ==> encoded(seq![c]) == seq![c],
        c == ' ' ==> encoded(seq![c]) == seq!['+'],
        encoded(Seq::<char>::empty()).len() == 0,
{
    assert(s.push(c) =~= s + seq![c]);
    text::lemma_encode_concat(s, seq![c]);
    lemma_encoded_concat(encode_utf8(s), encode_utf8(seq![c]));
    assert(encode_utf8(Seq::<char>::empty()) =~= Seq::<u8>::empty());
    if c as u32 <= 0x7f {
        text::lemma_ascii_byte(c);
        let b = encode_utf8(seq![c]);
        assert(b.drop_first() =~= Seq::<u8>::empty());
        assert(encoded_bytes(b.drop_first()) =~= Seq::<char>::empty());
        assert(encoded_bytes(b) =~= encoded_byte(c as u8));
    }
}

proof fn lemma_plain_decoded(s: Seq<char>)
    requires
        !s.contains('%') && !s.contains('+'),
    ensures
        decoded_bytes(s) == encode_utf8(s),
    decreases s.len(),
{
    if s.len() == 0 {
        assert(encode_utf8(s) =~= Seq::<u8>::empty());
    } else {
        assert(s.contains(s[0]));
        let d = s.drop_first();
        assert forall|i: int| 0 <= i < d.len() implies d[i] != '%' && d[i] != '+' by {
            assert(s.contains(s[i + 1]));
        }
        lemma_plain_decoded(d);
        assert(seq![s[0]] + d =~= s);
        text::lemma_encode_concat(seq![s[0]], d);
    }
}

/// A text without percent signs and plus signs is decoded to itself, whatever characters it has.
pub proof fn plain_texts_are_decoded_to_themselves(s: Seq<char>)
    requires
        !s.contains('%') && !s.contains('+'),
    ensures
        decoded(s) == s,
{
    lemma_plain_decoded(s);
    encode_utf8_valid_utf8(s);
    encode_utf8_decode_utf8(s);
}

} // verus!
