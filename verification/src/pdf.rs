//! PDF documents: recognising them, and answering with a preview of their raw text.

use crate::answer::ResultView;
use crate::answer::ScrapeResult;
use crate::bindings::unicode;
use crate::paging;
use crate::text;
use vstd::prelude::*;
use vstd::utf8::*;

verus! {

/// What precedes the query and the fragment of an address.
pub open spec fn stem(addr: Seq<char>) -> Seq<char>
    decreases addr.len(),
{
    if addr.len() == 0 || addr[0] == '?' || addr[0] == '#' {
        seq![]
    } else {
        seq![addr[0]] + stem(addr.drop_first())
    }
}

/// The lower-cased address names a PDF file.
pub open spec fn names_pdf(lower: Seq<char>) -> bool {
    text::ends_with(stem(lower), ".pdf"@)
}

/// The address names a PDF file, in whatever case.
pub open spec fn pdf_address(addr: Seq<char>) -> bool {
    names_pdf(unicode::lowercase(addr))
}

/// Whether a lower-cased address names a PDF file.
pub fn is_pdf_path(lower: &str) -> (r: bool)
    ensures
        r == names_pdf(lower@),
{
    let c = text::to_chars(lower);
    let mut i: usize = 0;
    assert(c@.take(0) == Seq::<char>::empty());
    assert(c@.skip(0) == c@);
    while i < c.len() && c[i] != '?' && c[i] != '#'
        invariant
            i <= c@.len(),
            stem(c@) == c@.take(i as int) + stem(c@.skip(i as int)),
        decreases c@.len() - i,
    {
        assert(c@.skip(i as int).drop_first() == c@.skip(i + 1));
        assert(c@.take(i + 1) == c@.take(i as int) + seq![c@[i as int]]);
        assert(c@.take(i as int) + (seq![c@[i as int]] + stem(c@.skip(i + 1))) == c@.take(i + 1)
            + stem(c@.skip(i + 1)));
        i += 1;
    }
    let s = text::from_chars(&c, 0, i);
    assert(s@ == stem(c@));
    text::has_suffix(s.as_str(), ".pdf")
}

/// Whether an address names a PDF file.
pub fn url_is_pdf(addr: &str) -> (r: bool)
    ensures
        r == pdf_address(addr@),
{
    is_pdf_path(unicode::to_lowercase(addr).as_str())
}

/// Whether to ask for the document as a PDF at all: its address says so, or pages are named.
pub fn worth_asking(addr: &str, pages: Option<&str>) -> (r: bool)
    ensures
        r == (pdf_address(addr@) || pages is Some),
{
    url_is_pdf(addr) || pages.is_some()
}

/// What a response shows of being a PDF.
#[derive(Debug, Clone, Copy)]
pub struct Evidence {
    /// The address names a PDF file.
    pub by_address: bool,
    /// The content type names PDF.
    pub by_type: bool,
    /// The body starts with the signature of a PDF file.
    pub by_signature: bool,
    pub status: u16,
}

impl Evidence {
    /// The response is taken for a PDF. An error response must show more than its address.
    pub open spec fn convinces(&self) -> bool {
        &&& self.by_type || self.by_signature || self.by_address
        &&& self.status >= 400 ==> self.by_type || self.by_signature
    }

    /// Whether the response is taken for a PDF.
    pub fn suffices(&self) -> (r: bool)
        ensures
            r == self.convinces(),
    {
        if !self.by_type && !self.by_signature && !self.by_address {
            return false;
        }
        !(self.status >= 400 && !self.by_signature && !self.by_type)
    }
}

/// What a response shows of being a PDF, its content type given in lower case.
pub open spec fn evidence_of(
    addr: Seq<char>,
    content_type: Seq<char>,
    status: u16,
    body: Seq<u8>,
) -> Evidence {
    Evidence {
        by_address: pdf_address(addr),
        by_type: text::contains(content_type, "pdf"@),
        by_signature: text::occurs_at(body, text::ascii("%PDF"@), 0),
        status,
    }
}

/// The note on a preview; `pages` is the debugging notation of the pages asked for.
pub open spec fn note_of(
    e: Evidence,
    content_type: Seq<char>,
    body_len: nat,
    pages: Seq<char>,
) -> Seq<char> {
    if e.by_signature || e.by_type {
        "PDF extraction requires pdf feature; returning raw text preview ("@ + text::decimal(
            body_len,
        ) + " bytes, content-type: "@ + content_type + "). pages="@ + pages
            + ". Raw preview limited to 40000 chars."@
    } else {
        "URL ends with .pdf but Content-Type is "@ + content_type
            + " and header not %PDF; returning raw preview ("@ + text::decimal(body_len)
            + " bytes). pages="@ + pages
    }
}

/// Where reading starts.
pub open spec fn start_of(offset: Option<usize>) -> int {
    match offset {
        Some(o) => o as int,
        None => 0,
    }
}

/// The answer for a PDF with the given raw text.
pub open spec fn previewed(
    addr: Seq<char>,
    raw: Seq<char>,
    note: Seq<char>,
    offset: Option<usize>,
    max_chars: usize,
) -> ResultView {
    let preview = text::first(raw, 40000);
    let (markdown, truncated) = paging::truncated(
        paging::sliced(preview, start_of(offset)),
        max_chars as int,
    );
    let content_ok = text::byte_len(text::trimmed(markdown)) > 20;
    ResultView {
        url: addr,
        title: addr,
        markdown,
        clean_html: seq![],
        tier: "http"@,
        content_ok,
        blocked: false,
        note: Some(note),
        next_action: if content_ok {
            None
        } else {
            Some(
                "PDF extraction is minimal without pdf crate; install poppler or enable pdf feature for better results"@,
            )
        },
        total_chars: preview.len(),
        truncated,
        page_type: "media"@,
        quality_bits: if content_ok {
            0x3f19_999a
        } else {
            0x3e4c_cccd
        },
        description: None,
        links: seq![],
        headings: seq![],
        next_offset: paging::next_of(start_of(offset), markdown, truncated),
        media: seq![],
    }
}

/// The note on a preview.
pub fn write_note(e: Evidence, content_type: &str, body_len: usize, pages: &str) -> (r: String)
    ensures
        r@ == note_of(e, content_type@, body_len as nat, pages@),
{
    if e.by_signature || e.by_type {
        let mut m =
            "PDF extraction requires pdf feature; returning raw text preview (".to_owned();
        m.append(text::show(body_len).as_str());
        m.append(" bytes, content-type: ");
        m.append(content_type);
        m.append("). pages=");
        m.append(pages);
        m.append(". Raw preview limited to 40000 chars.");
        m
    } else {
        let mut m = "URL ends with .pdf but Content-Type is ".to_owned();
        m.append(content_type);
        m.append(" and header not %PDF; returning raw preview (");
        m.append(text::show(body_len).as_str());
        m.append(" bytes). pages=");
        m.append(pages);
        m
    }
}

/// The answer for a PDF with the given raw text.
pub fn present(
    addr: &str,
    raw: &str,
    note: String,
    offset: Option<usize>,
    max_chars: usize,
) -> (r: ScrapeResult)
    ensures
        r@ == previewed(addr@, raw@, note@, offset, max_chars),
{
    let preview = text::first_chars(raw, 40000);
    let start: usize = match offset {
        Some(o) => o,
        None => 0,
    };
    let c = paging::chunk(preview.as_str(), start, max_chars);
    let content_ok = text::len(text::trim(c.markdown.as_str()).as_str()) > 20;
    let r = ScrapeResult {
        url: addr.to_owned(),
        title: addr.to_owned(),
        markdown: c.markdown,
        clean_html: String::new(),
        tier: "http".to_owned(),
        content_ok,
        blocked: false,
        note: Some(note),
        next_action: if content_ok {
            None
        } else {
            let m = "PDF extraction is minimal without pdf crate; install poppler or enable pdf feature for better results";
            Some(m.to_owned())
        },
        total_chars: text::count_chars(preview.as_str()),
        truncated: c.truncated,
        page_type: "media".to_owned(),
        quality_bits: if content_ok {
            0x3f19_999a
        } else {
            0x3e4c_cccd
        },
        description: None,
        links: Vec::new(),
        headings: Vec::new(),
        next_offset: c.next_offset,
        media: Vec::new(),
    };
    assert(text::views(Seq::<String>::empty()) =~= Seq::empty());
    assert(r@.links =~= Seq::empty());
    r
}

/// Answers a response with a preview of its raw text, if it is taken for a PDF; nothing for a
/// page that is to be scraped the usual way.
pub fn preview(
    addr: &str,
    pages: Option<&str>,
    max_chars: usize,
    offset: Option<usize>,
    content_type: &str,
    status: u16,
    body: &[u8],
) -> (r: Option<ScrapeResult>)
    ensures
        ({
            let ct = unicode::lowercase(content_type@);
            let e = evidence_of(addr@, ct, status, body@);
            let raw = unicode::lossy(body@);
            let shown = unicode::debugged(
                match pages {
                    Some(p) => Some(p@),
                    None => None,
                },
            );
            match r {
                Some(a) => e.convinces() && a@ == previewed(
                    addr@,
                    raw,
                    note_of(e, ct, body@.len(), shown),
                    offset,
                    max_chars,
                ),
                None => !e.convinces(),
            }
        }),
{
    proof {
        reveal_strlit("%PDF");
    }
    let ct = unicode::to_lowercase(content_type);
    let e = Evidence {
        by_address: url_is_pdf(addr),
        by_type: text::has(ct.as_str(), "pdf"),
        by_signature: text::bytes_at(body, text::ascii_bytes("%PDF"), 0),
        status,
    };
    if !e.suffices() {
        return None;
    }
    let raw = unicode::from_utf8_lossy(body);
    let note = write_note(e, ct.as_str(), body.len(), unicode::debug_option(pages).as_str());
    Some(present(addr, raw.as_str(), note, offset, max_chars))
}

/// A preview that is not usable comes with advice, one that is comes without, and each
/// comes with a note.
pub proof fn previews_are_explained(
    addr: Seq<char>,
    raw: Seq<char>,
    note: Seq<char>,
    offset: Option<usize>,
    max_chars: usize,
)
    ensures
        ({
            let a = previewed(addr, raw, note, offset, max_chars);
            &&& a.content_ok <==> a.next_action is None
            &&& a.note is Some
            &&& a.next_offset is Some <==> a.truncated
        }),
{
}

// ── What counts as a PDF and what is shown of it ────────────────────────────

proof fn lemma_stem(a: Seq<char>, c: char, rest: Seq<char>)
    requires
        !a.contains('?') && !a.contains('#'),
        c == '?' || c == '#',
    ensures
        stem(a) == a,
        stem(a + seq![c] + rest) == a,
    decreases a.len(),
{
    let s = a + seq![c] + rest;
    if a.len() == 0 {
        assert(s[0] == c);
        assert(stem(s) =~= a);
    } else {
        let d = a.drop_first();
        assert(s[0] == a[0]);
        assert(a.contains(a[0]));
        assert forall|i: int| 0 <= i < d.len() implies d[i] != '?' && d[i] != '#' by {
            assert(a.contains(a[i + 1]));
        }
        assert(s.drop_first() =~= d + seq![c] + rest);
        lemma_stem(d, c, rest);
        assert(seq![a[0]] + d =~= a);
    }
}

/// An address names a PDF exactly if it ends with that extension, the query and the fragment aside.
pub proof fn extensions_name_pdfs(a: Seq<char>, c: char, rest: Seq<char>)
    requires
        !a.contains('?') && !a.contains('#'),
        c == '?' || c == '#',
    ensures
        names_pdf(a) <==> text::ends_with(a, ".pdf"@),
        names_pdf(a + seq![c] + rest) <==> text::ends_with(a, ".pdf"@),
        names_pdf(a + ".pdf"@),
{
    lemma_stem(a, c, rest);
    let p = a + ".pdf"@;
    reveal_strlit(".pdf");
    assert forall|i: int| 0 <= i < p.len() implies p[i] != '?' && p[i] != '#' by {
        if i < a.len() {
            assert(a.contains(a[i]));
        }
    }
    lemma_stem(p, c, rest);
    text::what_is_put_in_is_found(a, ".pdf"@, Seq::empty());
}

/// A response is taken for a PDF if its type says so or its body begins like one, with whatever
/// status; if nothing but its address says so, unless it is an error; and otherwise not.
pub proof fn responses_are_taken_for_pdfs(
    addr: Seq<char>,
    content_type: Seq<char>,
    status: u16,
    body: Seq<u8>,
)
    ensures
        ({
            let e = evidence_of(addr, content_type, status, body);
            let by_type = text::contains(content_type, "pdf"@);
            let by_body = body.len() >= 4 && body[0] == 0x25 && body[1] == 0x50 && body[2] == 0x44
                && body[3] == 0x46;
            let by_address = names_pdf(unicode::lowercase(addr));
            &&& by_type || by_body ==> e.convinces()
            &&& by_address && status < 400 ==> e.convinces()
            &&& by_address && status >= 400 && !by_type && !by_body ==> !e.convinces()
            &&& !by_address && !by_type && !by_body ==> !e.convinces()
        }),
{
    reveal_strlit("%PDF");
    let sign = text::ascii("%PDF"@);
    assert(sign =~= seq![0x25u8, 0x50, 0x44, 0x46]);
    if body.len() >= 4 {
        let h = body.subrange(0, 4);
        assert(h[0] == body[0] && h[1] == body[1] && h[2] == body[2] && h[3] == body[3]);
        if body[0] == 0x25 && body[1] == 0x50 && body[2] == 0x44 && body[3] == 0x46 {
            assert(h =~= sign);
        }
    }
}

/// A preview that fits shows all of the raw text, or its first forty thousand characters, and says
/// that nothing was cut off. It is usable if it has more than twenty bytes of text.
pub proof fn previews_show_the_raw_text(
    addr: Seq<char>,
    raw: Seq<char>,
    note: Seq<char>,
    max_chars: usize,
)
    requires
        raw.len() <= max_chars,
    ensures
        ({
            let a = previewed(addr, raw, note, None, max_chars);
            &&& raw.len() <= 40000 ==> a.markdown == raw && a.total_chars == raw.len()
            &&& raw.len() > 40000 ==> a.markdown == raw.take(40000) && a.total_chars == 40000
            &&& !a.truncated && a.next_offset is None
            &&& a.content_ok <==> encode_utf8(text::trimmed(a.markdown)).len() > 20
            &&& a.url == addr && a.title == addr && a.note == Some(note)
            &&& a.page_type == "media"@ && !a.blocked && a.tier == "http"@
        }),
{
    text::first_items_are_the_beginning(raw, 40000);
    let p = text::first(raw, 40000);
    paging::offsets_count_bytes(Seq::empty(), p);
    assert(Seq::<char>::empty() + p =~= p);
    assert(encode_utf8(Seq::<char>::empty()) =~= Seq::<u8>::empty());
}

/// The note on a preview tells the size of the document, its type and the pages that were asked
/// for, and whether it is known to be a PDF.
pub proof fn notes_tell_size_type_and_pages(
    e: Evidence,
    content_type: Seq<char>,
    body_len: nat,
    pages: Seq<char>,
)
    ensures
        ({
            let n = note_of(e, content_type, body_len, pages);
            &&& text::contains(n, content_type)
            &&& text::contains(n, text::decimal(body_len))
            &&& text::contains(n, pages)
            &&& e.by_signature || e.by_type ==> text::starts_with(
                n,
                "PDF extraction requires pdf feature; returning raw text preview ("@,
            )
            &&& !e.by_signature && !e.by_type ==> text::starts_with(
                n,
                "URL ends with .pdf but Content-Type is "@,
            )
        }),
{
    let n = note_of(e, content_type, body_len, pages);
    let none = Seq::<char>::empty();
    let d = text::decimal(body_len);
    if e.by_signature || e.by_type {
        let a = "PDF extraction requires pdf feature; returning raw text preview ("@;
        let b = " bytes, content-type: "@;
        let c = "). pages="@;
        let f = ". Raw preview limited to 40000 chars."@;
        assert(n =~= a + (d + b + content_type + c + pages + f));
        text::what_is_put_in_is_found(none, a, d + b + content_type + c + pages + f);
        assert(n =~= a + d + (b + content_type + c + pages + f));
        text::what_is_put_in_is_found(a, d, b + content_type + c + pages + f);
        assert(n =~= (a + d + b) + content_type + (c + pages + f));
        text::what_is_put_in_is_found(a + d + b, content_type, c + pages + f);
        text::what_is_put_in_is_found(a + d + b + content_type + c, pages, f);
        assert(n =~= (a + d + b + content_type + c) + pages + f);
    } else {
        let a = "URL ends with .pdf but Content-Type is "@;
        let b = " and header not %PDF; returning raw preview ("@;
        let c = " bytes). pages="@;
        assert(n =~= a + (content_type + b + d + c + pages));
        text::what_is_put_in_is_found(none, a, content_type + b + d + c + pages);
        assert(n =~= a + content_type + (b + d + c + pages));
        text::what_is_put_in_is_found(a, content_type, b + d + c + pages);
        assert(n =~= (a + content_type + b) + d + (c + pages));
        text::what_is_put_in_is_found(a + content_type + b, d, c + pages);
        assert(n =~= (a + content_type + b + d + c) + pages + none);
        text::what_is_put_in_is_found(a + content_type + b + d + c, pages, none);
    }
}

/// A preview that is asked for from an offset on, in bytes, shows what follows, if that fits.
pub proof fn previews_go_on_at_an_offset(
    addr: Seq<char>,
    before: Seq<char>,
    rest: Seq<char>,
    note: Seq<char>,
    offset: usize,
    max_chars: usize,
)
    requires
        before.len() + rest.len() <= 40000,
        offset == encode_utf8(before).len(),
        rest.len() <= max_chars,
    ensures
        ({
            let a = previewed(addr, before + rest, note, Some(offset), max_chars);
            &&& a.markdown == rest
            &&& !a.truncated && a.next_offset is None
            &&& a.total_chars == before.len() + rest.len()
        }),
{
    text::first_items_are_the_beginning(before + rest, 40000);
    paging::offsets_count_bytes(before, rest);
}

} // verus!
