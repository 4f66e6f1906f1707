//! From a fetched and extracted page to the answer: judging whether it is usable content, and
//! putting the answer together.

use crate::extractor;
use crate::extractor::CleanDoc;
use crate::fetcher::Fetched;
use crate::focus;
use crate::media;
use crate::paging;
use crate::text;
use vstd::prelude::*;
use vstd::utf8::*;

verus! {

// ── The answer ──────────────────────────────────────────────────────────────

/// A link of an answer.
#[derive(Debug)]
pub struct LinkOut {
    pub href: String,
    pub text: String,
}

impl View for LinkOut {
    type V = (Seq<char>, Seq<char>);

    open spec fn view(&self) -> Self::V {
        (self.href@, self.text@)
    }
}

/// Target and text of each link of a list.
pub open spec fn out_views(v: Seq<LinkOut>) -> Seq<(Seq<char>, Seq<char>)> {
    Seq::new(v.len(), |i: int| v[i]@)
}

/// What scraping a page answers.
#[derive(Debug)]
pub struct ScrapeResult {
    pub url: String,
    pub title: String,
    /// Clean article markdown: the field to feed a language model.
    pub markdown: String,
    /// Sanitized article HTML, for when structure matters.
    pub clean_html: String,
    /// Which rung fetched it: `http` (cheap) or `chrome` (challenge or JavaScript).
    pub tier: String,
    /// The field to check first. False means that `markdown` is not usable content (bot wall,
    /// empty shell, extraction failure): read `note` and use another source rather than
    /// treating it as the page.
    pub content_ok: bool,
    /// True when even the browser tier only got a bot challenge.
    pub blocked: bool,
    /// Why `content_ok` is false, or a caveat. Nothing when the fetch was clean.
    pub note: Option<String>,
    /// What to do next when `content_ok` is false.
    pub next_action: Option<String>,
    /// Characters of the markdown before any trimming.
    pub total_chars: usize,
    /// True when `markdown` was cut short.
    pub truncated: bool,
    /// `article`, `list`, `media` or `unknown`.
    pub page_type: String,
    /// The quality score between zero and one, as the bits of a single-precision number.
    pub quality_bits: u32,
    /// Meta description, if present.
    pub description: Option<String>,
    /// Extracted links.
    pub links: Vec<LinkOut>,
    /// Headings as a table of contents.
    pub headings: Vec<String>,
    /// Where the next chunk starts, if the markdown was cut short.
    pub next_offset: Option<usize>,
    /// Image URLs, if they were asked for.
    pub media: Vec<String>,
}

/// The contents of an answer.
pub struct ResultView {
    pub url: Seq<char>,
    pub title: Seq<char>,
    pub markdown: Seq<char>,
    pub clean_html: Seq<char>,
    pub tier: Seq<char>,
    pub content_ok: bool,
    pub blocked: bool,
    pub note: Option<Seq<char>>,
    pub next_action: Option<Seq<char>>,
    pub total_chars: nat,
    pub truncated: bool,
    pub page_type: Seq<char>,
    pub quality_bits: u32,
    pub description: Option<Seq<char>>,
    pub links: Seq<(Seq<char>, Seq<char>)>,
    pub headings: Seq<Seq<char>>,
    pub next_offset: Option<int>,
    pub media: Seq<Seq<char>>,
}

impl View for ScrapeResult {
    type V = ResultView;

    open spec fn view(&self) -> ResultView {
        ResultView {
            url: self.url@,
            title: self.title@,
            markdown: self.markdown@,
            clean_html: self.clean_html@,
            tier: self.tier@,
            content_ok: self.content_ok,
            blocked: self.blocked,
            note: text::opt(self.note),
            next_action: text::opt(self.next_action),
            total_chars: self.total_chars as nat,
            truncated: self.truncated,
            page_type: self.page_type@,
            quality_bits: self.quality_bits,
            description: text::opt(self.description),
            links: out_views(self.links@),
            headings: text::views(self.headings@),
            next_offset: match self.next_offset {
                Some(n) => Some(n as int),
                None => None,
            },
            media: text::views(self.media@),
        }
    }
}

impl Clone for LinkOut {
    fn clone(&self) -> (r: LinkOut)
        ensures
            r == *self,
    {
        LinkOut { href: self.href.clone(), text: self.text.clone() }
    }
}

/// A copy of a list of links.
fn copy_links(links: &[LinkOut]) -> (r: Vec<LinkOut>)
    ensures
        r@ == links@,
{
    let mut r: Vec<LinkOut> = Vec::new();
    let mut i: usize = 0;
    while i < links.len()
        invariant
            i <= links@.len(),
            r@ == links@.take(i as int),
        decreases links@.len() - i,
    {
        r.push(links[i].clone());
        i += 1;
    }
    r
}

impl Clone for ScrapeResult {
    fn clone(&self) -> (r: ScrapeResult)
        ensures
            r@ == self@,
    {
        ScrapeResult {
            url: self.url.clone(),
            title: self.title.clone(),
            markdown: self.markdown.clone(),
            clean_html: self.clean_html.clone(),
            tier: self.tier.clone(),
            content_ok: self.content_ok,
            blocked: self.blocked,
            note: text::copy_opt(&self.note),
            next_action: text::copy_opt(&self.next_action),
            total_chars: self.total_chars,
            truncated: self.truncated,
            page_type: self.page_type.clone(),
            quality_bits: self.quality_bits,
            description: text::copy_opt(&self.description),
            links: copy_links(&self.links),
            headings: text::copy_all(&self.headings),
            next_offset: self.next_offset,
            media: text::copy_all(&self.media),
        }
    }
}

/// The answers behind a list.
pub open spec fn result_views(v: Seq<ScrapeResult>) -> Seq<ResultView> {
    Seq::new(v.len(), |i: int| v[i]@)
}

// ── Headings ────────────────────────────────────────────────────────────────

/// The trimmed lines of a list that begin with a number sign.
pub open spec fn headings_in(lines: Seq<Seq<char>>) -> Seq<Seq<char>>
    decreases lines.len(),
{
    if lines.len() == 0 {
        seq![]
    } else {
        let rest = headings_in(lines.drop_last());
        let line = text::trimmed(lines.last());
        if line.len() > 0 && line[0] == '#' {
            rest.push(line)
        } else {
            rest
        }
    }
}

/// The first twenty headings of a markdown text, trimmed.
pub open spec fn headings_of(md: Seq<char>) -> Seq<Seq<char>> {
    let all = headings_in(text::pieces(md, "\n"@));
    all.take(
        if all.len() < 20 {
            all.len() as int
        } else {
            20
        },
    )
}

/// The first twenty headings of a markdown text, trimmed. Trimming makes it irrelevant whether
/// a line ends with a carriage return.
pub fn extract_headings(markdown: &str) -> (r: Vec<String>)
    ensures
        text::views(r@) == headings_of(markdown@),
{
    proof {
        reveal_strlit("\n");
    }
    let lines = text::split(markdown, "\n");
    let ghost l = text::views(lines@);
    let mut found: Vec<String> = Vec::new();
    let ghost mut all: Seq<Seq<char>> = seq![];
    let mut i: usize = 0;
    while i < lines.len()
        invariant
            i <= lines@.len(),
            l == text::views(lines@),
            all == headings_in(l.take(i as int)),
            text::views(found@) == all.take(
                if all.len() < 20 {
                    all.len() as int
                } else {
                    20
                },
            ),
        decreases lines@.len() - i,
    {
        assert(l.take(i + 1).drop_last() == l.take(i as int));
        let line = text::trim(lines[i].as_str());
        let c = text::to_chars(line.as_str());
        if c.len() > 0 && c[0] == '#' {
            let ghost before = text::views(found@);
            assert(before.len() == found@.len());
            if found.len() < 20 {
                found.push(line);
                assert(text::views(found@) == before.push(line@));
            }
            proof {
                all = all.push(line@);
            }
        }
        i += 1;
    }
    assert(l.take(i as int) == l);
    found
}

// ── The verdict ─────────────────────────────────────────────────────────────

/// Whether a page is usable content, and if not, why and what to do.
#[derive(Debug)]
pub struct Verdict {
    pub content_ok: bool,
    pub note: Option<String>,
    pub next_action: Option<String>,
}

impl View for Verdict {
    type V = (bool, Option<Seq<char>>, Option<Seq<char>>);

    open spec fn view(&self) -> Self::V {
        (self.content_ok, text::opt(self.note), text::opt(self.next_action))
    }
}

/// Hardly any text came out of a page that has some size.
pub open spec fn thin(md_len: nat, text_len: nat, html_len: nat) -> bool {
    (md_len < 200 && html_len > 2000) || (text_len < 100 && html_len > 1500) || md_len == 0
}

/// A browser was sent because of a wall, and what it rendered yields no article.
pub open spec fn stealth_wall(got: Fetched, thin: bool) -> bool {
    got.escalated && thin && got.first_reason is Some
}

/// What the final tier, or else the cheap one, saw.
pub open spec fn why(got: Fetched) -> Seq<char> {
    match got.reason {
        Some(w) => w@,
        None => match got.first_reason {
            Some(w) => w@,
            None => "blocked"@,
        },
    }
}

/// A usable page.
pub open spec fn usable() -> (bool, Option<Seq<char>>, Option<Seq<char>>) {
    (true, None, None)
}

/// A page behind bot protection.
pub open spec fn walled(got: Fetched) -> (bool, Option<Seq<char>>, Option<Seq<char>>) {
    (
        false,
        Some(
            "bot protection not bypassed (tier "@ + got.tier.called() + ", "@ + why(got)
                + "); no article recovered"@,
        ),
        Some(
            "site likely uses DataDome/Turnstile/Akamai, which no free tool bypasses - try another path on this domain or a different source"@,
        ),
    )
}

/// A page without prose.
pub open spec fn proseless(html_len: nat, kind: Seq<char>) -> (
    bool,
    Option<Seq<char>>,
    Option<Seq<char>>,
) {
    (
        false,
        Some(
            "no article extracted from "@ + text::decimal(html_len)
                + " bytes of HTML (app shell, index, or media page) - type: "@ + kind,
        ),
        Some("page has no prose to extract - try a specific article URL"@),
    )
}

/// The first verdict on a page: walls and pages without prose are not usable, unless a thin
/// page is a list with something in it.
pub open spec fn first_verdict(doc: extractor::DocView, got: Fetched) -> (
    bool,
    Option<Seq<char>>,
    Option<Seq<char>>,
) {
    let html_len = text::byte_len(got.html@);
    let md_len = extractor::net_len(doc.markdown);
    let is_thin = thin(md_len, extractor::net_len(doc.text), html_len);
    if got.blocked || stealth_wall(got, is_thin) {
        walled(got)
    } else if is_thin && !(doc.page_type == "list"@ && md_len > 100) {
        proseless(html_len, doc.page_type)
    } else {
        usable()
    }
}

/// A list of links that has something to show even where its page looks like a wall.
pub open spec fn rich_list(doc: extractor::DocView) -> bool {
    doc.page_type == "list"@ && doc.links.len() > 10 && extractor::net_len(doc.markdown) > 50
}

/// The verdict on a page.
pub open spec fn verdict(doc: extractor::DocView, got: Fetched) -> (
    bool,
    Option<Seq<char>>,
    Option<Seq<char>>,
) {
    if rich_list(doc) {
        usable()
    } else {
        first_verdict(doc, got)
    }
}

/// Judges whether a page is usable content, and if not, why and what to do.
pub fn assess(doc: &CleanDoc, got: &Fetched) -> (r: Verdict)
    ensures
        r@ == verdict(doc@, *got),
{
    let html_len = text::len(got.html.as_str());
    let md_len = extractor::trimmed_len(doc.markdown.as_str());
    let text_len = extractor::trimmed_len(doc.text.as_str());
    let is_list = text::same(doc.page_type.as_str(), "list");
    assert(extractor::link_views(doc.links@).len() == doc.links@.len());
    if is_list && doc.links.len() > 10 && md_len > 50 {
        return Verdict { content_ok: true, note: None, next_action: None };
    }
    let is_thin = (md_len < 200 && html_len > 2000) || (text_len < 100 && html_len > 1500) || md_len
        == 0;
    if got.blocked || (got.escalated && is_thin && got.first_reason.is_some()) {
        let mut note = "bot protection not bypassed (tier ".to_owned();
        note.append(got.tier.name().as_str());
        note.append(", ");
        match &got.reason {
            Some(w) => note.append(w.as_str()),
            None => match &got.first_reason {
                Some(w) => note.append(w.as_str()),
                None => note.append("blocked"),
            },
        }
        note.append("); no article recovered");
        let next = "site likely uses DataDome/Turnstile/Akamai, which no free tool bypasses - try another path on this domain or a different source";
        return Verdict { content_ok: false, note: Some(note), next_action: Some(next.to_owned()) };
    }
    if is_thin && !(is_list && md_len > 100) {
        let mut note = "no article extracted from ".to_owned();
        note.append(text::show(html_len).as_str());
        note.append(" bytes of HTML (app shell, index, or media page) - type: ");
        note.append(doc.page_type.as_str());
        let next = "page has no prose to extract - try a specific article URL";
        return Verdict { content_ok: false, note: Some(note), next_action: Some(next.to_owned()) };
    }
    Verdict { content_ok: true, note: None, next_action: None }
}

/// A page that is not usable comes with the reason and with advice, and a usable one with
/// neither.
pub proof fn unusable_pages_are_explained(doc: extractor::DocView, got: Fetched)
    ensures
        verdict(doc, got).0 <==> verdict(doc, got).1 is None,
        verdict(doc, got).0 <==> verdict(doc, got).2 is None,
{
}

/// A wall is never passed off as content: a blocked page, or one that the browser was sent for
/// in vain, is not usable, unless it is a list with many links.
pub proof fn walls_are_not_content(doc: extractor::DocView, got: Fetched)
    requires
        !rich_list(doc),
        got.blocked || (got.escalated && got.first_reason is Some && extractor::net_len(
            doc.markdown,
        ) == 0),
    ensures
        verdict(doc, got) == walled(got),
{
}

// ── Putting the answer together ─────────────────────────────────────────────

/// How much of a page is asked for.
#[derive(Debug, Clone, Copy)]
pub struct Extent {
    pub max_chars: usize,
    pub include_links: bool,
    pub offset: Option<usize>,
    pub include_media: bool,
}

impl Extent {
    /// Where in the text the answer starts.
    pub open spec fn start(&self) -> int {
        match self.offset {
            Some(o) => o as int,
            None => 0,
        }
    }
}

/// The answer for a page whose text, narrowed to what was asked about, is `focused`.
pub open spec fn answered(
    url: Seq<char>,
    doc: extractor::DocView,
    got: Fetched,
    verdict: (bool, Option<Seq<char>>, Option<Seq<char>>),
    focused: Seq<char>,
    extent: Extent,
    media: Seq<Seq<char>>,
    quality_bits: u32,
) -> ResultView {
    let (markdown, truncated) = paging::truncated(
        paging::sliced(focused, extent.start()),
        extent.max_chars as int,
    );
    ResultView {
        url,
        title: doc.title,
        markdown,
        clean_html: doc.clean_html,
        tier: got.tier.called(),
        content_ok: verdict.0,
        blocked: got.blocked,
        note: verdict.1,
        next_action: verdict.2,
        total_chars: doc.markdown.len(),
        truncated,
        page_type: doc.page_type,
        quality_bits,
        description: doc.description,
        links: if extent.include_links {
            text::first(doc.links, 50)
        } else {
            seq![]
        },
        headings: headings_of(markdown),
        next_offset: paging::next_of(extent.start(), markdown, truncated),
        media,
    }
}

/// The first fifty links of a document.
fn outgoing(links: &[extractor::Link]) -> (r: Vec<LinkOut>)
    ensures
        out_views(r@) == text::first(extractor::link_views(links@), 50),
{
    let mut r: Vec<LinkOut> = Vec::new();
    let ghost all = extractor::link_views(links@);
    let mut i: usize = 0;
    while i < links.len() && i < 50
        invariant
            i <= links@.len(),
            i <= 50,
            all == extractor::link_views(links@),
            out_views(r@) == all.take(i as int),
        decreases links@.len() - i,
    {
        let ghost before = out_views(r@);
        r.push(LinkOut { href: links[i].href.clone(), text: links[i].text.clone() });
        assert(out_views(r@) == before.push(all[i as int]));
        i += 1;
    }
    r
}

/// Puts the answer for a page together.
pub fn assemble(
    url: &str,
    doc: CleanDoc,
    got: &Fetched,
    verdict: Verdict,
    focused: &str,
    extent: Extent,
    media: Vec<String>,
    quality_bits: u32,
) -> (r: ScrapeResult)
    ensures
        r@ == answered(
            url@,
            doc@,
            *got,
            verdict@,
            focused@,
            extent,
            text::views(media@),
            quality_bits,
        ),
{
    let offset: usize = match extent.offset {
        Some(o) => o,
        None => 0,
    };
    let c = paging::chunk(focused, offset, extent.max_chars);
    let links = if extent.include_links {
        outgoing(&doc.links)
    } else {
        Vec::new()
    };
    let headings = extract_headings(c.markdown.as_str());
    let total_chars = text::count_chars(doc.markdown.as_str());
    let r = ScrapeResult {
        url: url.to_owned(),
        title: doc.title,
        markdown: c.markdown,
        clean_html: doc.clean_html,
        tier: got.tier.name(),
        content_ok: verdict.content_ok,
        blocked: got.blocked,
        note: verdict.note,
        next_action: verdict.next_action,
        total_chars,
        truncated: c.truncated,
        page_type: doc.page_type,
        quality_bits,
        description: doc.description,
        links,
        headings,
        next_offset: c.next_offset,
        media,
    };
    assert(out_views(Seq::<LinkOut>::empty()) =~= Seq::empty());
    r
}

/// The images that an answer lists.
pub open spec fn media_asked(page: Seq<char>, url: Seq<char>, asked: bool) -> Seq<Seq<char>> {
    if asked {
        media::media_of(page, url)
    } else {
        seq![]
    }
}

/// The text of a page: where a query is given and the page is usable, the best forty of the
/// paragraphs about it, and else all of it.
pub open spec fn text_asked(
    doc: extractor::DocView,
    got: Fetched,
    query: Option<&str>,
    scores: Seq<u32>,
) -> Seq<char> {
    match query {
        Some(q) => if verdict(doc, got).0 {
            focus::focused(doc.markdown, q@, scores, 40)
        } else {
            doc.markdown
        },
        None => doc.markdown,
    }
}

/// The answer for a fetched page, with a score for each paragraph where a query is given.
pub fn respond(
    url: &str,
    doc: CleanDoc,
    got: &Fetched,
    query: Option<&str>,
    scores: &[u32],
    extent: Extent,
    quality_bits: u32,
) -> (r: ScrapeResult)
    ensures
        r@ == answered(
            url@,
            doc@,
            *got,
            verdict(doc@, *got),
            text_asked(doc@, *got, query, scores@),
            extent,
            media_asked(got.html@, url@, extent.include_media),
            quality_bits,
        ),
{
    let verdict = assess(&doc, got);
    let focused = match query {
        Some(q) => if verdict.content_ok {
            focus::focus_filter(doc.markdown.as_str(), q, 40, scores)
        } else {
            doc.markdown.clone()
        },
        None => doc.markdown.clone(),
    };
    let images = if extent.include_media {
        media::extract_media(got.html.as_str(), url)
    } else {
        Vec::new()
    };
    assert(text::views(Seq::<String>::empty()) =~= Seq::empty());
    assemble(url, doc, got, verdict, focused.as_str(), extent, images, quality_bits)
}

/// The document of a page, or the empty document where the page cannot be read.
pub open spec fn read_page(page: Seq<char>, url: Seq<char>) -> extractor::DocView {
    match extractor::extracted(page, url) {
        Ok(d) => d,
        Err(_) => extractor::nothing_extracted(),
    }
}

/// Makes a page readable, with the empty document for a page that cannot be.
pub fn read(page: &str, url: &str) -> (r: CleanDoc)
    ensures
        r@ == read_page(page@, url@),
{
    match extractor::extract(page, url) {
        Ok(d) => d,
        Err(_) => CleanDoc::empty(),
    }
}

/// An answer has at most as many characters of text as were asked for, says where to go on
/// exactly if it was cut short, and names at most fifty links and twenty headings.
pub proof fn answers_are_bounded(
    url: Seq<char>,
    doc: extractor::DocView,
    got: Fetched,
    verdict: (bool, Option<Seq<char>>, Option<Seq<char>>),
    focused: Seq<char>,
    extent: Extent,
    media: Seq<Seq<char>>,
    quality_bits: u32,
)
    ensures
        ({
            let a = answered(url, doc, got, verdict, focused, extent, media, quality_bits);
            &&& a.next_offset is Some <==> a.truncated
            &&& a.markdown.len() <= extent.max_chars
            &&& a.total_chars == doc.markdown.len()
            &&& a.links.len() <= 50
            &&& a.headings.len() <= 20
        }),
{
    let part = paging::sliced(focused, extent.start());
    if part.len() > extent.max_chars {
        paging::cut_is_on_a_paragraph_boundary(part, extent.max_chars as int);
    }
}

/// An answer that was cut short and the text at its next offset make up the text from its own
/// offset on: a reader who goes on there misses nothing and reads nothing twice.
pub proof fn answers_continue_each_other(
    url: Seq<char>,
    doc: extractor::DocView,
    got: Fetched,
    verdict: (bool, Option<Seq<char>>, Option<Seq<char>>),
    focused: Seq<char>,
    extent: Extent,
    media: Seq<Seq<char>>,
    quality_bits: u32,
)
    requires
        text::splits_at(focused, extent.start()),
    ensures
        ({
            let a = answered(url, doc, got, verdict, focused, extent, media, quality_bits);
            match a.next_offset {
                Some(next) => paging::sliced(focused, extent.start()) == a.markdown
                    + paging::sliced(focused, next),
                None => paging::sliced(focused, extent.start()) == a.markdown,
            }
        }),
{
    let part = paging::sliced(focused, extent.start());
    if paging::truncated(part, extent.max_chars as int).1 {
        paging::chunks_follow_each_other(focused, extent.start(), extent.max_chars as int);
    }
}

// ── What a verdict and an answer must be ────────────────────────────────────

/// A page that is no wall and from which enough text came out is usable, whichever tier brought
/// it and whatever the tier before it met.
pub proof fn recovered_articles_are_usable(doc: extractor::DocView, got: Fetched)
    requires
        !got.blocked,
        encode_utf8(text::trimmed(doc.markdown)).len() >= 200,
        encode_utf8(text::trimmed(doc.text)).len() >= 100,
    ensures
        verdict(doc, got) == (true, None::<Seq<char>>, None::<Seq<char>>),
{
}

/// A small page that is no wall is usable as soon as any text came out of it.
pub proof fn small_pages_are_usable(doc: extractor::DocView, got: Fetched)
    requires
        !got.blocked,
        encode_utf8(got.html@).len() <= 1500,
        exists|i: int| 0 <= i < doc.markdown.len() && !text::space(#[trigger] doc.markdown[i]),
    ensures
        verdict(doc, got) == (true, None::<Seq<char>>, None::<Seq<char>>),
{
    text::blank_texts_are_white_space(doc.markdown);
    text::lemma_byte_len(text::trimmed(doc.markdown));
}

/// A list with more than ten links and some text is usable, even where its page looks like a wall.
pub proof fn lists_of_links_are_usable(doc: extractor::DocView, got: Fetched)
    requires
        doc.page_type == "list"@,
        doc.links.len() > 10,
        encode_utf8(text::trimmed(doc.markdown)).len() > 50,
    ensures
        verdict(doc, got) == (true, None::<Seq<char>>, None::<Seq<char>>),
{
}

/// A list with some text is usable unless it is a wall, however large its page.
pub proof fn lists_with_text_are_usable(doc: extractor::DocView, got: Fetched)
    requires
        !got.blocked,
        !got.escalated || got.first_reason is None,
        doc.page_type == "list"@,
        encode_utf8(text::trimmed(doc.markdown)).len() > 100,
    ensures
        verdict(doc, got) == (true, None::<Seq<char>>, None::<Seq<char>>),
{
}

/// A wall is reported as one, with the tier that met it last and what was seen, unless the page
/// is a list with more than ten links and some text.
pub proof fn walls_are_reported(doc: extractor::DocView, got: Fetched)
    requires
        got.blocked,
        doc.page_type != "list"@ || doc.links.len() <= 10 || encode_utf8(
            text::trimmed(doc.markdown),
        ).len() <= 50,
    ensures
        ({
            let (ok, note, advice) = verdict(doc, got);
            &&& !ok
            &&& note is Some && advice is Some
            &&& text::starts_with(note->0, "bot protection not bypassed (tier "@)
            &&& got.tier == crate::fetcher::Tier::Http ==> text::contains(note->0, "http"@)
            &&& got.tier == crate::fetcher::Tier::Chrome ==> text::contains(note->0, "chrome"@)
            &&& got.reason matches Some(w) ==> text::contains(note->0, w@)
            &&& got.reason is None ==> (got.first_reason matches Some(w) ==> text::contains(
                note->0,
                w@,
            ))
        }),
{
    lemma_walled(got);
}

proof fn lemma_walled(got: Fetched)
    ensures
        ({
            let note = walled(got).1->0;
            &&& text::starts_with(note, "bot protection not bypassed (tier "@)
            &&& text::contains(note, got.tier.called())
            &&& text::contains(note, why(got))
        }),
{
    let note = walled(got).1->0;
    let a = "bot protection not bypassed (tier "@;
    let t = got.tier.called();
    let c = ", "@;
    let w = why(got);
    let e = "); no article recovered"@;
    assert(note =~= a + (t + c + w + e));
    text::what_is_put_in_is_found(Seq::empty(), a, t + c + w + e);
    assert(note =~= a + t + (c + w + e));
    text::what_is_put_in_is_found(a, t, c + w + e);
    assert(note =~= (a + t + c) + w + e);
    text::what_is_put_in_is_found(a + t + c, w, e);
}

/// A page that is no wall is usable if enough text came out of it for its size: any at all, a
/// hundred bytes of text where the page has more than fifteen hundred, and two hundred bytes of
/// markdown where it has more than two thousand. Neither the tier nor what it met before counts.
pub proof fn pages_with_enough_text_are_usable(doc: extractor::DocView, got: Fetched)
    requires
        !got.blocked,
        exists|i: int| 0 <= i < doc.markdown.len() && !text::space(#[trigger] doc.markdown[i]),
        encode_utf8(got.html@).len() > 1500 ==> encode_utf8(text::trimmed(doc.text)).len() >= 100,
        encode_utf8(got.html@).len() > 2000 ==> encode_utf8(text::trimmed(doc.markdown)).len()
            >= 200,
    ensures
        verdict(doc, got) == (true, None::<Seq<char>>, None::<Seq<char>>),
{
    text::blank_texts_are_white_space(doc.markdown);
    text::lemma_byte_len(text::trimmed(doc.markdown));
}

/// A page of some size of which hardly any text came out is not usable, and neither is any page
/// of which none did, unless it is a list with some text. Where a browser was sent for it because
/// of a wall, it is reported as one, unless it is a list with more than ten links.
pub proof fn empty_pages_are_not_usable(doc: extractor::DocView, got: Fetched)
    requires
        ({
            let html = encode_utf8(got.html@).len();
            ||| encode_utf8(text::trimmed(doc.markdown)).len() < 200 && html > 2000
            ||| encode_utf8(text::trimmed(doc.text)).len() < 100 && html > 1500
            ||| forall|i: int|
                0 <= i < doc.markdown.len() ==> text::space(#[trigger] doc.markdown[i])
        }),
        doc.page_type != "list"@ || doc.links.len() <= 10 || encode_utf8(
            text::trimmed(doc.markdown),
        ).len() <= 50,
    ensures
        ({
            let (ok, note, advice) = verdict(doc, got);
            &&& got.escalated && got.first_reason is Some ==> !ok && note is Some && advice is Some
                && text::starts_with(note->0, "bot protection not bypassed (tier "@)
            &&& !got.blocked && !(got.escalated && got.first_reason is Some) && (doc.page_type
                != "list"@ || encode_utf8(text::trimmed(doc.markdown)).len() <= 100) ==> !ok && note
                is Some && advice is Some && text::starts_with(
                note->0,
                "no article extracted from "@,
            ) && text::ends_with(note->0, doc.page_type)
        }),
{
    text::blank_texts_are_white_space(doc.markdown);
    text::lemma_byte_len(text::trimmed(doc.markdown));
    if text::trimmed(doc.markdown).len() == 0 {
        assert(text::trimmed(doc.markdown) =~= Seq::<char>::empty());
        assert(encode_utf8(Seq::<char>::empty()) =~= Seq::<u8>::empty());
    }
    lemma_walled(got);
    let n = text::decimal(text::byte_len(got.html@));
    let a = "no article extracted from "@;
    let b = " bytes of HTML (app shell, index, or media page) - type: "@;
    let note = proseless(text::byte_len(got.html@), doc.page_type).1->0;
    assert(note =~= a + (n + b + doc.page_type));
    text::what_is_put_in_is_found(Seq::empty(), a, n + b + doc.page_type);
    assert(note =~= (a + n + b) + doc.page_type);
    text::what_is_put_in_is_found(a + n + b, doc.page_type, Seq::empty());
}

/// The images of a page are answered if they are asked for, and only then.
pub proof fn images_are_answered_if_asked_for(page: Seq<char>, url: Seq<char>)
    ensures
        media_asked(page, url, true) == media::media_of(page, url),
        media_asked(page, url, false).len() == 0,
{
}

/// A text that is asked for from its start and fits is answered whole: nothing of it is left out,
/// and the answer says so.
pub proof fn texts_that_fit_are_answered_whole(
    url: Seq<char>,
    doc: extractor::DocView,
    got: Fetched,
    verdict: (bool, Option<Seq<char>>, Option<Seq<char>>),
    focused: Seq<char>,
    extent: Extent,
    media: Seq<Seq<char>>,
    quality_bits: u32,
)
    requires
        extent.offset is None,
        focused.len() <= extent.max_chars,
    ensures
        ({
            let a = answered(url, doc, got, verdict, focused, extent, media, quality_bits);
            &&& a.markdown == focused
            &&& !a.truncated
            &&& a.next_offset is None
        }),
{
    paging::offsets_count_bytes(Seq::empty(), focused);
    assert(Seq::<char>::empty() + focused =~= focused);
    assert(encode_utf8(Seq::<char>::empty()) =~= Seq::<u8>::empty());
}

/// A text that does not fit is cut short: the answer begins it, has at least one character and no
/// more than asked for, and says that there is more and where: behind the bytes that it has.
pub proof fn longer_texts_are_cut_short(
    url: Seq<char>,
    doc: extractor::DocView,
    got: Fetched,
    verdict: (bool, Option<Seq<char>>, Option<Seq<char>>),
    before: Seq<char>,
    rest: Seq<char>,
    extent: Extent,
    media: Seq<Seq<char>>,
    quality_bits: u32,
)
    requires
        extent.offset == Some(encode_utf8(before).len() as usize) || (extent.offset is None
            && before.len() == 0),
        encode_utf8(before).len() <= usize::MAX,
        0 < extent.max_chars < rest.len(),
    ensures
        ({
            let a = answered(url, doc, got, verdict, before + rest, extent, media, quality_bits);
            &&& 0 < a.markdown.len() <= extent.max_chars
            &&& a.markdown == rest.take(a.markdown.len() as int)
            &&& a.truncated
            &&& a.next_offset == Some((encode_utf8(before).len() + encode_utf8(a.markdown).len()) as int)
        }),
{
    paging::offsets_count_bytes(before, rest);
    paging::cut_is_on_a_paragraph_boundary(rest, extent.max_chars as int);
    if before.len() == 0 {
        assert(before =~= Seq::<char>::empty());
        assert(encode_utf8(Seq::<char>::empty()) =~= Seq::<u8>::empty());
    }
}

/// An answer says of the page what the document, the fetch and the verdict say: its title, its
/// HTML, its kind and its description; by which tier it came and whether it is a wall; whether it
/// is usable, and if not, why and what to do. It has the first fifty links if they are asked for,
/// and all of them where there are no more, and the headings of the text that it has.
pub proof fn answers_report_the_page(
    url: Seq<char>,
    doc: extractor::DocView,
    got: Fetched,
    verdict: (bool, Option<Seq<char>>, Option<Seq<char>>),
    focused: Seq<char>,
    extent: Extent,
    media: Seq<Seq<char>>,
    quality_bits: u32,
)
    ensures
        ({
            let a = answered(url, doc, got, verdict, focused, extent, media, quality_bits);
            &&& a.url == url && a.title == doc.title && a.clean_html == doc.clean_html
            &&& a.page_type == doc.page_type && a.description == doc.description
            &&& a.blocked == got.blocked && a.quality_bits == quality_bits && a.media == media
            &&& got.tier == crate::fetcher::Tier::Http ==> a.tier == "http"@
            &&& got.tier == crate::fetcher::Tier::Chrome ==> a.tier == "chrome"@
            &&& (a.content_ok, a.note, a.next_action) == verdict
            &&& a.total_chars == doc.markdown.len()
            &&& a.headings == headings_of(a.markdown)
            &&& !extent.include_links ==> a.links.len() == 0
            &&& extent.include_links && doc.links.len() <= 50 ==> a.links == doc.links
            &&& extent.include_links && doc.links.len() > 50 ==> a.links == doc.links.take(50)
        }),
{
    text::first_items_are_the_beginning(doc.links, 50);
}

/// Without a query the whole text of a page is asked for, and so it is where the page is not
/// usable, so that what came back can be looked at.
pub proof fn whole_texts_are_asked_for(
    doc: extractor::DocView,
    got: Fetched,
    query: Option<&str>,
    scores: Seq<u32>,
)
    requires
        query is None || !verdict(doc, got).0,
    ensures
        text_asked(doc, got, query, scores) == doc.markdown,
{
}

/// With a query, up to forty paragraphs about it are asked for: where a usable text has no more
/// of them, every paragraph in which a term of the query stands.
pub proof fn paragraphs_about_a_query_are_asked_for(
    doc: extractor::DocView,
    got: Fetched,
    query: &str,
    scores: Seq<u32>,
) -> (at: Seq<int>)
    requires
        verdict(doc, got).0,
    ensures
        ({
            let paras = text::pieces(doc.markdown, "\n\n"@);
            let terms = focus::terms_of(query@);
            &&& at.len() <= 40
            &&& forall|k: int| 0 <= k < at.len() ==> 0 <= #[trigger] at[k] < paras.len()
            &&& at.len() < 40 ==> forall|i: int, t: int|
                0 <= i < paras.len() && 0 <= t < terms.len() && text::contains(
                    crate::bindings::unicode::lowercase(#[trigger] paras[i]),
                    #[trigger] terms[t],
                ) ==> at.contains(i)
            &&& forall|i: int, t: int|
                0 <= i < paras.len() && 0 <= t < terms.len() && text::contains(
                    crate::bindings::unicode::lowercase(#[trigger] paras[i]),
                    #[trigger] terms[t],
                ) ==> text_asked(doc, got, Some(query), scores) == text::joined(
                    Seq::new(at.len(), |k: int| paras[at[k]]),
                    "\n\n"@,
                )
        }),
{
    focus::paragraphs_about_the_query_are_kept(doc.markdown, query@, scores, 40)
}

proof fn lemma_headings(lines: Seq<Seq<char>>)
    ensures
        headings_in(lines).len() <= lines.len(),
        forall|i: int|
            0 <= i < lines.len() && text::trimmed(#[trigger] lines[i]).len() > 0 && text::trimmed(
                lines[i],
            )[0] == '#' ==> headings_in(lines).contains(text::trimmed(lines[i])),
        forall|k: int|
            0 <= k < headings_in(lines).len() ==> exists|i: int|
                0 <= i < lines.len() && text::trimmed(#[trigger] lines[i])
                    == #[trigger] headings_in(lines)[k],
        forall|k: int|
            0 <= k < headings_in(lines).len() ==> (#[trigger] headings_in(lines)[k]).len() > 0
                && headings_in(lines)[k][0] == '#',
    decreases lines.len(),
{
    if lines.len() > 0 {
        let less = lines.drop_last();
        let rest = headings_in(less);
        let all = headings_in(lines);
        lemma_headings(less);
        assert forall|i: int|
            0 <= i < lines.len() && text::trimmed(#[trigger] lines[i]).len() > 0 && text::trimmed(
                lines[i],
            )[0] == '#' implies all.contains(text::trimmed(lines[i])) by {
            if i < less.len() {
                assert(less[i] == lines[i]);
                let k = rest.index_of(text::trimmed(lines[i]));
                assert(all[k] == rest[k]);
            } else {
                assert(all.last() == text::trimmed(lines[i]));
            }
        }
        assert forall|k: int| 0 <= k < all.len() implies exists|i: int|
            0 <= i < lines.len() && text::trimmed(#[trigger] lines[i]) == #[trigger] all[k] by {
            if k < rest.len() {
                assert(all[k] == rest[k]);
                let i = choose|i: int|
                    0 <= i < less.len() && text::trimmed(#[trigger] less[i]) == rest[k];
                assert(lines[i] == less[i]);
            } else {
                assert(text::trimmed(lines[lines.len() - 1]) == all[k]);
            }
        }
    }
}

/// Every line of a text that begins with a number sign, white space aside, is one of its headings,
/// unless there are more than twenty lines; and nothing else is.
pub proof fn lines_with_a_number_sign_are_headings(md: Seq<char>, i: int)
    requires
        0 <= i < text::pieces(md, "\n"@).len() <= 20,
    ensures
        ({
            let line = text::trimmed(text::pieces(md, "\n"@)[i]);
            headings_of(md).contains(line) <==> line.len() > 0 && line[0] == '#'
        }),
{
    let lines = text::pieces(md, "\n"@);
    let all = headings_in(lines);
    lemma_headings(lines);
    assert(all.take(all.len() as int) =~= all);
    let line = text::trimmed(lines[i]);
    if all.contains(line) {
        let k = all.index_of(line);
        assert(all[k][0] == '#');
    }
}

/// A page that can be read is answered as the document made of it.
pub proof fn readable_pages_are_read(page: Seq<char>, url: Seq<char>, d: extractor::DocView)
    requires
        extractor::extracted(page, url) == Ok::<extractor::DocView, extractor::Failure>(d),
    ensures
        read_page(page, url) == d,
{
}

} // verus!
