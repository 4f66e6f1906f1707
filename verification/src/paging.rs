//! Reading a long text in chunks: cutting it at a limit, going on at an offset.
//!
//! A limit counts characters. An offset counts bytes of UTF-8.

use crate::text;
use vstd::prelude::*;
use vstd::utf8::*;

verus! {

/// The last paragraph break that starts at `i` or before, but behind the start of the text; 0
/// if there is none.
pub open spec fn last_break(s: Seq<char>, i: int) -> int
    decreases i,
{
    if i <= 0 {
        0
    } else if s[i] == '\n' && s[i + 1] == '\n' {
        i
    } else {
        last_break(s, i - 1)
    }
}

/// Where a text of more than `limit` characters is cut: at the last paragraph break within the
/// limit, and where there is none at the limit.
pub open spec fn cut_of(md: Seq<char>, limit: int) -> int {
    let p = last_break(md, limit - 2);
    if p > 0 {
        p
    } else {
        limit
    }
}

/// At most `limit` characters of a text, and whether something was cut off.
pub open spec fn truncated(md: Seq<char>, limit: int) -> (Seq<char>, bool) {
    if md.len() <= limit {
        (md, false)
    } else {
        (md.take(cut_of(md, limit)), true)
    }
}

proof fn lemma_last_break(s: Seq<char>, i: int)
    requires
        i + 1 < s.len(),
    ensures
        0 <= last_break(s, i),
        last_break(s, i) > 0 ==> last_break(s, i) <= i && s[last_break(s, i)] == '\n' && s[
        last_break(s, i) + 1] == '\n',
        forall|j: int|
            #![trigger s[j]]
            last_break(s, i) < j <= i && 0 < j ==> !(s[j] == '\n' && s[j + 1] == '\n'),
    decreases i,
{
    if i > 0 && !(s[i] == '\n' && s[i + 1] == '\n') {
        lemma_last_break(s, i - 1);
    }
}

/// A cut lies within the limit, and takes something unless nothing was asked for. Where a
/// paragraph break lies within the limit, behind the start of the text, the cut is at such a
/// break, and none follows it within the limit.
pub proof fn cut_is_on_a_paragraph_boundary(md: Seq<char>, limit: int)
    requires
        0 <= limit < md.len(),
    ensures
        0 <= cut_of(md, limit) <= limit,
        limit > 0 ==> cut_of(md, limit) > 0,
        (exists|j: int| 0 < j && j + 2 <= limit && #[trigger] text::occurs_at(md, "\n\n"@, j))
            ==> text::occurs_at(md, "\n\n"@, cut_of(md, limit)) && cut_of(md, limit) + 2 <= limit,
        forall|j: int|
            cut_of(md, limit) < j && j + 2 <= limit ==> !#[trigger] text::occurs_at(
                md,
                "\n\n"@,
                j,
            ),
{
    reveal_strlit("\n\n");
    lemma_last_break(md, limit - 2);
    let p = last_break(md, limit - 2);
    assert forall|j: int| 0 < j && j + 2 <= limit implies (#[trigger] text::occurs_at(
        md,
        "\n\n"@,
        j,
    ) <==> md[j] == '\n' && md[j + 1] == '\n') by {
        let piece = md.subrange(j, j + 2);
        assert(piece[0] == md[j] && piece[1] == md[j + 1]);
        if md[j] == '\n' && md[j + 1] == '\n' {
            assert(piece =~= "\n\n"@);
        }
    }
}

/// At most `limit` characters of a text, cut on a paragraph boundary where there is one, and
/// whether something was cut off.
pub fn truncate(md: &str, limit: usize) -> (r: (String, bool))
    ensures
        (r.0@, r.1) == truncated(md@, limit as int),
{
    let c = text::to_chars(md);
    if c.len() <= limit {
        return (md.to_owned(), false);
    }
    let mut cut: usize = limit;
    let mut i: usize = limit;
    while i > 2
        invariant_except_break
            cut == limit,
            last_break(c@, limit - 2) == last_break(c@, i - 2),
        invariant
            c@ == md@,
            limit < c@.len(),
            i <= limit,
        ensures
            cut == cut_of(md@, limit as int),
            cut <= limit,
        decreases i,
    {
        if c[i - 2] == '\n' && c[i - 1] == '\n' {
            cut = i - 2;
            break;
        }
        i -= 1;
    }
    let r = text::from_chars(&c, 0, cut);
    assert(r@ =~= md@.take(cut as int));
    (r, true)
}

/// The first place from `i` on that lies between characters.
pub open spec fn boundary_from(s: Seq<char>, i: int) -> int
    decreases text::byte_len(s) - i,
{
    if i >= text::byte_len(s) {
        text::byte_len(s) as int
    } else if text::splits_at(s, i) {
        i
    } else {
        boundary_from(s, i + 1)
    }
}

/// The text from a byte offset on; an offset inside a character is moved behind it.
pub open spec fn sliced(s: Seq<char>, offset: int) -> Seq<char> {
    text::after(s, boundary_from(s, offset))
}

/// The text from a byte offset on; an offset inside a character is moved behind it, and one
/// behind the end gives nothing.
pub fn slice_at_offset(s: &str, offset: usize) -> (r: String)
    ensures
        r@ == sliced(s@, offset as int),
        offset == 0 ==> r@ == s@,
        offset >= text::byte_len(s@) ==> r@ == Seq::<char>::empty(),
{
    let len: usize = text::len(s);
    proof {
        text::lemma_split_ends(s@);
    }
    let mut idx: usize = if offset < len {
        offset
    } else {
        len
    };
    while idx < len && !s.is_char_boundary(idx)
        invariant
            idx <= len,
            len == text::byte_len(s@),
            boundary_from(s@, offset as int) == boundary_from(s@, idx as int),
        decreases len - idx,
    {
        idx += 1;
    }
    text::rest(s, idx)
}

proof fn lemma_boundary_from(s: Seq<char>, i: int)
    requires
        0 <= i,
    ensures
        text::splits_at(s, boundary_from(s, i)),
        boundary_from(s, i) <= text::byte_len(s),
        i <= text::byte_len(s) ==> i <= boundary_from(s, i),
        i >= text::byte_len(s) ==> boundary_from(s, i) == text::byte_len(s),
    decreases text::byte_len(s) - i,
{
    text::lemma_split_ends(s);
    if i < text::byte_len(s) && !text::splits_at(s, i) {
        lemma_boundary_from(s, i + 1);
    }
}

/// A chunk that was cut off ends within the text.
proof fn lemma_next_fits(s: Seq<char>, offset: int, limit: int)
    requires
        0 <= offset,
        0 <= limit,
    ensures
        truncated(sliced(s, offset), limit).1 ==> offset + text::byte_len(
            truncated(sliced(s, offset), limit).0,
        ) <= text::byte_len(s),
{
    let part = sliced(s, offset);
    lemma_boundary_from(s, offset);
    text::lemma_split(s, boundary_from(s, offset));
    if part.len() > limit {
        cut_is_on_a_paragraph_boundary(part, limit);
        let cut = cut_of(part, limit);
        assert(part =~= part.take(cut) + part.skip(cut));
        text::lemma_encode_concat(part.take(cut), part.skip(cut));
        if offset >= text::byte_len(s) {
            text::lemma_split_ends(s);
        }
    }
}

/// Where the next chunk starts, if something was cut off.
pub open spec fn next_of(offset: int, chunk: Seq<char>, cut: bool) -> Option<int> {
    if cut {
        Some(offset + text::byte_len(chunk))
    } else {
        None
    }
}

/// One page of a long text.
pub struct Chunk {
    pub markdown: String,
    pub truncated: bool,
    /// Where the next chunk starts, if there is more.
    pub next_offset: Option<usize>,
}

/// At most `limit` characters of a text from an offset on, and where to go on.
pub fn chunk(s: &str, offset: usize, limit: usize) -> (r: Chunk)
    ensures
        (r.markdown@, r.truncated) == truncated(sliced(s@, offset as int), limit as int),
        match r.next_offset {
            Some(n) => next_of(offset as int, r.markdown@, r.truncated) == Some(n as int),
            None => next_of(offset as int, r.markdown@, r.truncated) is None,
        },
{
    let part = slice_at_offset(s, offset);
    let (markdown, truncated) = truncate(part.as_str(), limit);
    proof {
        lemma_next_fits(s@, offset as int, limit as int);
    }
    let _total: usize = text::len(s);
    let next_offset = if truncated {
        Some(offset + text::len(markdown.as_str()))
    } else {
        None
    };
    Chunk { markdown, truncated, next_offset }
}

/// A chunk and what starts at its next offset make up the text from the chunk's offset on:
/// nothing is skipped and nothing comes twice. The next offset lies between characters again,
/// and a chunk that was cut off is not empty unless no text at all was asked for.
pub proof fn chunks_follow_each_other(s: Seq<char>, offset: int, limit: int)
    requires
        text::splits_at(s, offset),
        0 <= limit,
    ensures
        ({
            let (c, cut) = truncated(sliced(s, offset), limit);
            let next = offset + text::byte_len(c);
            &&& text::splits_at(s, next)
            &&& sliced(s, offset) == c + sliced(s, next)
            &&& cut && limit > 0 ==> c.len() > 0 && next > offset
        }),
{
    let part = sliced(s, offset);
    let (c, cut) = truncated(part, limit);
    text::lemma_split(s, offset);
    text::lemma_split_ends(s);
    assert(boundary_from(s, offset) == offset);
    assert(part == text::after(s, offset));
    if cut {
        cut_is_on_a_paragraph_boundary(part, limit);
    }
    let k = c.len() as int;
    let rest = part.skip(k);
    assert(part =~= c + rest);
    let head = text::before(s, offset) + c;
    assert(s =~= head + rest);
    text::lemma_encode_concat(text::before(s, offset), c);
    text::lemma_encode_concat(head, rest);
    text::lemma_split_concat(head, rest);
    let next = offset + text::byte_len(c);
    assert(text::byte_len(text::before(s, offset)) == offset);
    assert(boundary_from(s, next) == next);
    text::lemma_byte_len(c);
}

/// Everything that a reader gets who starts at `offset` and follows the next offsets.
pub open spec fn read_on(s: Seq<char>, offset: int, limit: int) -> Seq<char>
    decreases text::byte_len(s) - offset,
{
    let c = truncated(sliced(s, offset), limit);
    let next = offset + text::byte_len(c.0);
    if c.1 && offset < next <= text::byte_len(s) {
        c.0 + read_on(s, next, limit)
    } else {
        c.0
    }
}

/// A reader who starts at an offset between characters and follows the next offsets reads the
/// whole text from there on, every character once.
pub proof fn following_offsets_reads_everything(s: Seq<char>, offset: int, limit: int)
    requires
        limit > 0,
        text::splits_at(s, offset),
    ensures
        read_on(s, offset, limit) == sliced(s, offset),
        offset == 0 ==> read_on(s, offset, limit) == s,
    decreases text::byte_len(s) - offset,
{
    text::lemma_split(s, offset);
    text::lemma_split_ends(s);
    assert(boundary_from(s, offset) == offset);
    let c = truncated(sliced(s, offset), limit);
    if c.1 {
        chunks_follow_each_other(s, offset, limit);
        lemma_next_fits(s, offset, limit);
        following_offsets_reads_everything(s, offset + text::byte_len(c.0), limit);
    }
}

/// A text that fits is not cut, and one that does not is: what is left of it begins it.
pub proof fn texts_that_fit_are_not_cut(md: Seq<char>, limit: int)
    requires
        0 <= limit,
    ensures
        truncated(md, limit).1 <==> md.len() > limit,
        md.len() <= limit ==> truncated(md, limit).0 == md,
        truncated(md, limit).0 == md.take(truncated(md, limit).0.len() as int),
{
    if md.len() > limit {
        cut_is_on_a_paragraph_boundary(md, limit);
    } else {
        assert(md.take(md.len() as int) =~= md);
    }
}

/// A text with no empty line in what may be kept of it, but at its very start, is cut at the limit
/// and nowhere before.
pub proof fn unbroken_texts_are_cut_at_the_limit(md: Seq<char>, limit: int)
    requires
        0 <= limit < md.len(),
        forall|j: int|
            0 < j && j + 1 < limit ==> !(#[trigger] md[j] == '\n' && md[j + 1] == '\n'),
    ensures
        truncated(md, limit).0 == md.take(limit),
{
    lemma_last_break(md, limit - 2);
}

/// A text with an empty line in what may be kept of it, but not at its very start, is cut at the
/// last such line.
pub proof fn broken_texts_are_cut_at_the_last_break(md: Seq<char>, limit: int, at: int)
    requires
        0 < at && at + 1 < limit < md.len(),
        md[at] == '\n' && md[at + 1] == '\n',
        forall|j: int|
            at < j && j + 1 < limit ==> !(#[trigger] md[j] == '\n' && md[j + 1] == '\n'),
    ensures
        truncated(md, limit).0 == md.take(at),
{
    lemma_last_break(md, limit - 2);
    let b = last_break(md, limit - 2);
    if b < at {
        assert(md[at] == '\n');
    } else if b > at {
        assert(md[b] == '\n' && md[b + 1] == '\n');
    }
}

/// An offset counts the bytes of what is left out: a text read from behind its first part on is
/// its second part.
pub proof fn offsets_count_bytes(first: Seq<char>, second: Seq<char>)
    ensures
        sliced(first + second, encode_utf8(first).len() as int) == second,
{
    let s = first + second;
    let n = encode_utf8(first).len() as int;
    text::lemma_split_concat(first, second);
    text::lemma_encode_concat(first, second);
    text::lemma_split_ends(s);
    assert(boundary_from(s, n) == n);
}

/// The next chunk starts behind the bytes of this one, if anything was cut off.
pub proof fn chunks_are_counted_in_bytes(offset: int, chunk: Seq<char>)
    ensures
        next_of(offset, chunk, true) == Some(offset + encode_utf8(chunk).len()),
        next_of(offset, chunk, false) is None,
{
}

/// No offset inside a character lies between characters.
proof fn lemma_inside_character(a: Seq<char>, c: char, b: Seq<char>, n: int)
    requires
        encode_utf8(a).len() < n < encode_utf8(a).len() + encode_utf8(seq![c]).len(),
    ensures
        !text::splits_at(a + seq![c] + b, n),
{
    let s = a + seq![c] + b;
    if text::splits_at(s, n) {
        text::lemma_split(s, n);
        let f = text::before(s, n);
        let k = f.len() as int;
        assert(f =~= s.take(k));
        assert(encode_utf8(f).len() == n);
        if k <= a.len() {
            assert(a =~= f + a.skip(k)) by {
                assert(f =~= a.take(k));
            }
            text::lemma_encode_concat(f, a.skip(k));
        } else {
            let d = a + seq![c];
            assert(f =~= d + f.skip(d.len() as int));
            text::lemma_encode_concat(d, f.skip(d.len() as int));
            text::lemma_encode_concat(a, seq![c]);
        }
    }
}

proof fn lemma_next_boundary(s: Seq<char>, n: int, m: int)
    requires
        0 <= n <= m <= text::byte_len(s),
        text::splits_at(s, m),
        forall|j: int| n <= j < m ==> !#[trigger] text::splits_at(s, j),
    ensures
        boundary_from(s, n) == m,
    decreases m - n,
{
    if n < m {
        assert(!text::splits_at(s, n));
        lemma_next_boundary(s, n + 1, m);
    }
}

/// An offset inside a character is moved behind it.
pub proof fn offsets_inside_a_character_are_moved(a: Seq<char>, c: char, b: Seq<char>, n: int)
    requires
        encode_utf8(a).len() < n < encode_utf8(a).len() + encode_utf8(seq![c]).len(),
    ensures
        sliced(a + seq![c] + b, n) == b,
{
    let d = a + seq![c];
    let s = d + b;
    text::lemma_encode_concat(a, seq![c]);
    text::lemma_encode_concat(d, b);
    text::lemma_split_concat(d, b);
    let m = encode_utf8(d).len() as int;
    assert forall|j: int| n <= j < m implies !#[trigger] text::splits_at(s, j) by {
        lemma_inside_character(a, c, b, j);
    }
    lemma_next_boundary(s, n, m);
}

} // verus!
