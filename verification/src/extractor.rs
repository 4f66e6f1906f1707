//! HTML to what a language model can actually read: markdown, sanitized HTML, plain text.
//!
//! The reader that looks for an article comes first; where it finds little on a page that
//! shows much, such as a list or an index, the whole page is converted instead. Links,
//! metadata and the kind of page are extracted on the way.

use crate::bindings::html;
use crate::bindings::unicode;
use crate::bindings::url;
use crate::markup;
use crate::text;
use vstd::prelude::*;
use vstd::utf8::*;

verus! {

// ── Visible text ────────────────────────────────────────────────────────────

/// How many bytes of visible text a rough scan of markup counts from `i` on.
///
/// `b` is the markup and `lb` its lower-cased form, which is what tags are looked for in.
pub open spec fn visible_from(
    b: Seq<u8>,
    lb: Seq<u8>,
    i: int,
    in_tag: bool,
    in_script: bool,
) -> nat
    decreases
            (if i < b.len() {
                b.len() - i
            } else {
                0
            }),
{
    if i >= b.len() {
        0
    } else if text::occurs_at(lb, text::ascii("<script"@), i) {
        visible_from(b, lb, i + 7, in_tag, true)
    } else if in_script && text::occurs_at(lb, text::ascii("</script"@), i) {
        visible_from(b, lb, i + 8, in_tag, false)
    } else if text::occurs_at(lb, text::ascii("<style"@), i) {
        visible_from(b, lb, i + 6, in_tag, true)
    } else if in_script && text::occurs_at(lb, text::ascii("</style"@), i) {
        visible_from(b, lb, i + 7, in_tag, false)
    } else {
        let tag = in_tag || b[i] == 0x3c;
        let rest = visible_from(b, lb, i + 1, tag && b[i] != 0x3e, in_script);
        if !tag && !in_script && b[i] != 0x3e && !text::space_byte(b[i]) {
            rest + 1
        } else {
            rest
        }
    }
}

/// The scan stays within the lower-cased form, which may be shorter than the text.
pub open spec fn scannable(s: Seq<char>, lower: Seq<char>) -> bool {
    text::byte_len(s) <= text::byte_len(lower) + 1
}

/// How many bytes of visible text a page shows, given its lower-cased form.
pub open spec fn visible_in(s: Seq<char>, lower: Seq<char>) -> nat {
    visible_from(encode_utf8(s), encode_utf8(lower), 0, false, false)
}

/// How many bytes of visible text a page shows, given its lower-cased form.
pub fn visible_text_len_lowered(page: &str, lower: &str) -> (r: usize)
    requires
        scannable(page@, lower@),
    ensures
        r == visible_in(page@, lower@),
{
    proof {
        reveal_strlit("<script");
        reveal_strlit("</script");
        reveal_strlit("<style");
        reveal_strlit("</style");
    }
    let b = page.as_bytes();
    let lb = lower.as_bytes();
    let lower_len: usize = lb.len();
    let open_script = text::ascii_bytes("<script");
    let close_script = text::ascii_bytes("</script");
    let open_style = text::ascii_bytes("<style");
    let close_style = text::ascii_bytes("</style");
    let mut len: usize = 0;
    let mut in_tag = false;
    let mut in_script = false;
    let mut i: usize = 0;
    while i < b.len()
        invariant
            len <= i,
            open_script@ == text::ascii("<script"@),
            close_script@ == text::ascii("</script"@),
            open_style@ == text::ascii("<style"@),
            close_style@ == text::ascii("</style"@),
            open_script@.len() == 7,
            close_script@.len() == 8,
            open_style@.len() == 6,
            close_style@.len() == 7,
            lower_len == lb@.len(),
            b@ == encode_utf8(page@),
            lb@ == encode_utf8(lower@),
            visible_in(page@, lower@) == len + visible_from(b@, lb@, i as int, in_tag, in_script),
        decreases
                (if i < b@.len() {
                    b@.len() - i
                } else {
                    0
                }),
    {
        if text::bytes_at(lb, open_script, i) {
            in_script = true;
            i += 7;
        } else if in_script && text::bytes_at(lb, close_script, i) {
            in_script = false;
            i += 8;
        } else if text::bytes_at(lb, open_style, i) {
            in_script = true;
            i += 6;
        } else if in_script && text::bytes_at(lb, close_style, i) {
            in_script = false;
            i += 7;
        } else {
            if b[i] == 0x3c {
                in_tag = true;
            }
            if !in_tag && !in_script && b[i] != 0x3e && !text::is_space_byte(b[i]) {
                len += 1;
            }
            if b[i] == 0x3e {
                in_tag = false;
            }
            i += 1;
        }
    }
    len
}

/// How many bytes of visible text a page shows, by a rough scan that decides about the
/// fallback; nothing where lower-casing shortens the page and the scan would run past it.
pub fn visible_text_len(page: &str) -> (r: Option<usize>)
    ensures
        r is Some <==> scannable(page@, unicode::lowercase(page@)),
        r matches Some(n) ==> n == visible_in(page@, unicode::lowercase(page@)),
{
    let lower = unicode::to_lowercase(page);
    if text::len(page) >= 1 && text::len(page) - 1 > text::len(lower.as_str()) {
        return None;
    }
    Some(visible_text_len_lowered(page, lower.as_str()))
}

// ── Links ───────────────────────────────────────────────────────────────────

/// A link of a page.
#[derive(Debug)]
pub struct Link {
    pub href: String,
    pub text: String,
}

impl Clone for Link {
    fn clone(&self) -> (r: Self)
        ensures
            r == *self,
    {
        Link { href: self.href.clone(), text: self.text.clone() }
    }
}

impl View for Link {
    type V = (Seq<char>, Seq<char>);

    open spec fn view(&self) -> Self::V {
        (self.href@, self.text@)
    }
}

/// Target and text of each link of a list.
pub open spec fn link_views(v: Seq<Link>) -> Seq<(Seq<char>, Seq<char>)> {
    Seq::new(v.len(), |i: int| v[i]@)
}

/// The texts of an element with one space between words.
pub open spec fn element_text(e: (Option<Seq<char>>, Seq<Seq<char>>)) -> Seq<char> {
    text::collapsed(text::joined(e.1, seq![' ']))
}

/// The reference that an anchor makes, without white space at its ends.
pub open spec fn reference_of(anchor: (Option<Seq<char>>, Seq<Seq<char>>)) -> Seq<char> {
    match anchor.0 {
        Some(h) => text::trimmed(h),
        None => seq![],
    }
}

/// Target and full text of the link that an anchor makes, unless it leads nowhere else, its
/// target is overly long, or it shows no text. The target is the resolved reference, or the
/// reference as it stands where that fails.
pub open spec fn candidate(
    anchor: (Option<Seq<char>>, Seq<Seq<char>>),
    resolved: Option<Seq<char>>,
) -> Option<(Seq<char>, Seq<char>)> {
    let href = reference_of(anchor);
    let target = match resolved {
        Some(u) => u,
        None => href,
    };
    let shown = element_text(anchor);
    if href.len() == 0 || href[0] == '#' || text::starts_with(href, "javascript:"@) {
        None
    } else if text::byte_len(target) > 2048 || shown.len() == 0 {
        None
    } else {
        Some((target, shown))
    }
}

/// The links that the anchors of a page make, in order.
pub open spec fn candidates(
    anchors: Seq<(Option<Seq<char>>, Seq<Seq<char>>)>,
    base: Seq<char>,
) -> Seq<(Seq<char>, Seq<char>)>
    decreases anchors.len(),
{
    if anchors.len() == 0 {
        seq![]
    } else {
        let rest = candidates(anchors.drop_last(), base);
        let a = anchors.last();
        match candidate(a, url::url_join(base, reference_of(a))) {
            Some(c) => rest.push(c),
            None => rest,
        }
    }
}

/// The first hundred of the links that the anchors make.
pub open spec fn first_candidates(
    anchors: Seq<(Option<Seq<char>>, Seq<Seq<char>>)>,
    base: Seq<char>,
) -> Seq<(Seq<char>, Seq<char>)> {
    let all = candidates(anchors, base);
    all.take(
        if all.len() < 100 {
            all.len() as int
        } else {
            100
        },
    )
}

/// Links with each text cut to a hundred characters.
pub open spec fn clipped_links(c: Seq<(Seq<char>, Seq<char>)>) -> Seq<(Seq<char>, Seq<char>)> {
    Seq::new(c.len(), |i: int| (c[i].0, text::first(c[i].1, 100)))
}

/// The links of a page, at most a hundred of them, each text cut to a hundred characters.
pub open spec fn links_of(page: Seq<char>, base: Seq<char>) -> Seq<(Seq<char>, Seq<char>)> {
    clipped_links(first_candidates(html::css_select(page, "a[href]"@, "href"@), base))
}

/// One more anchor only ever adds to the links.
proof fn lemma_candidates_prefix(
    anchors: Seq<(Option<Seq<char>>, Seq<Seq<char>>)>,
    base: Seq<char>,
    n: int,
)
    requires
        0 <= n <= anchors.len(),
    ensures
        candidates(anchors.take(n), base).len() <= candidates(anchors, base).len(),
        candidates(anchors.take(n), base) == candidates(anchors, base).take(
            candidates(anchors.take(n), base).len() as int,
        ),
    decreases anchors.len(),
{
    if n == anchors.len() {
        assert(anchors.take(n) == anchors);
    } else {
        lemma_candidates_prefix(anchors.drop_last(), base, n);
        assert(anchors.drop_last().take(n) == anchors.take(n));
    }
}

/// The reference that an anchor makes, without white space at its ends.
fn reference(anchor: &html::Element) -> (r: String)
    ensures
        r@ == reference_of(anchor@),
{
    match &anchor.attr {
        Some(h) => text::trim(h.as_str()),
        None => String::new(),
    }
}

/// The link that one anchor makes, its text in full, given what its reference resolves to.
pub fn candidate_link(anchor: &html::Element, resolved: Option<String>) -> (r: Option<Link>)
    ensures
        match r {
            Some(l) => candidate(anchor@, text::opt(resolved)) == Some(l@),
            None => candidate(anchor@, text::opt(resolved)) is None,
        },
{
    let href = reference(anchor);
    let c = text::to_chars(href.as_str());
    if c.len() == 0 || c[0] == '#' || text::has_prefix(href.as_str(), "javascript:") {
        return None;
    }
    let target = match resolved {
        Some(u) => u,
        None => href,
    };
    if text::len(target.as_str()) > 2048 {
        return None;
    }
    let shown = shown_text(&anchor.text);
    if shown.as_str().is_empty() {
        return None;
    }
    Some(Link { href: target, text: shown })
}

/// The text nodes as one text, with one space between words.
fn shown_text(nodes: &Vec<String>) -> (r: String)
    ensures
        r@ == text::collapsed(text::joined(text::views(nodes@), seq![' '])),
{
    proof {
        reveal_strlit(" ");
        assert(" "@ == seq![' ']);
    }
    text::collapse(text::join(nodes, " ").as_str())
}

/// Links with each text cut to a hundred characters.
pub fn clip_links(links: &[Link]) -> (r: Vec<Link>)
    ensures
        link_views(r@) == clipped_links(link_views(links@)),
{
    let ghost c = clipped_links(link_views(links@));
    let mut out: Vec<Link> = Vec::new();
    let mut i: usize = 0;
    while i < links.len()
        invariant
            i <= links@.len(),
            c == clipped_links(link_views(links@)),
            link_views(out@) == c.take(i as int),
        decreases links@.len() - i,
    {
        let ghost before = link_views(out@);
        out.push(
            Link {
                href: links[i].href.clone(),
                text: text::first_chars(links[i].text.as_str(), 100),
            },
        );
        assert(link_views(out@) =~= before.push(c[i as int]));
        i += 1;
    }
    assert(c.take(i as int) =~= c);
    out
}

/// The links of a page, at most a hundred of them, each text cut to a hundred characters.
pub fn extract_links(page: &str, base_url: &str) -> (r: Vec<Link>)
    ensures
        link_views(r@) == links_of(page@, base_url@),
{
    let anchors = html::select(page, "a[href]", "href");
    let ghost a = html::elements(anchors@);
    let mut found: Vec<Link> = Vec::new();
    let mut i: usize = 0;
    while i < anchors.len() && found.len() < 100
        invariant
            i <= anchors@.len(),
            a == html::elements(anchors@),
            link_views(found@) == candidates(a.take(i as int), base_url@),
            found@.len() <= 100,
        decreases anchors@.len() - i,
    {
        assert(a.take(i + 1).drop_last() == a.take(i as int));
        let resolved = url::join(base_url, reference(&anchors[i]).as_str());
        if let Some(l) = candidate_link(&anchors[i], resolved) {
            let ghost before = link_views(found@);
            found.push(l);
            assert(link_views(found@) == before.push(l@));
        }
        i += 1;
    }
    proof {
        lemma_candidates_prefix(a, base_url@, i as int);
        if i == anchors@.len() {
            assert(a.take(i as int) == a);
        }
        assert(link_views(found@).len() == found@.len());
        assert(first_candidates(a, base_url@) == link_views(found@));
    }
    clip_links(&found)
}

// ── Metadata ────────────────────────────────────────────────────────────────

/// A text without white space at its ends, unless nothing remains of it.
pub open spec fn substance(s: Seq<char>) -> Option<Seq<char>> {
    if text::trimmed(s).len() == 0 {
        None
    } else {
        Some(text::trimmed(s))
    }
}

/// The title that the `title` elements of a page give: the first one's text.
pub open spec fn title_in(e: Seq<(Option<Seq<char>>, Seq<Seq<char>>)>) -> Option<Seq<char>> {
    if e.len() == 0 {
        None
    } else {
        substance(text::joined(e[0].1, seq![]))
    }
}

/// The description that the `meta` elements of a page give: the first one's content.
pub open spec fn description_in(e: Seq<(Option<Seq<char>>, Seq<Seq<char>>)>) -> Option<
    Seq<char>,
> {
    if e.len() == 0 {
        None
    } else {
        match e[0].0 {
            Some(d) => substance(d),
            None => None,
        }
    }
}

/// The title that a page gives itself.
pub open spec fn meta_title(page: Seq<char>) -> Option<Seq<char>> {
    title_in(html::css_select(page, "title"@, ""@))
}

/// The description that a page gives itself.
pub open spec fn meta_description(page: Seq<char>) -> Option<Seq<char>> {
    description_in(
        html::css_select(
            page,
            r#"meta[name="description"], meta[property="og:description"]"#@,
            "content"@,
        ),
    )
}

fn trim_to_substance(s: &str) -> (r: Option<String>)
    ensures
        text::opt(r) == substance(s@),
{
    let t = text::trim(s);
    if t.as_str().is_empty() {
        None
    } else {
        Some(t)
    }
}

/// The title and the description that elements of a page give.
pub fn meta_from(titles: &[html::Element], metas: &[html::Element]) -> (r: (
    Option<String>,
    Option<String>,
))
    ensures
        text::opt(r.0) == title_in(html::elements(titles@)),
        text::opt(r.1) == description_in(html::elements(metas@)),
{
    let title = if titles.len() == 0 {
        None
    } else {
        proof {
            reveal_strlit("");
            assert(""@ == Seq::<char>::empty());
            assert(html::elements(titles@)[0].1 == text::views(titles@[0].text@));
        }
        trim_to_substance(text::join(&titles[0].text, "").as_str())
    };
    let description = if metas.len() == 0 {
        None
    } else {
        assert(html::elements(metas@)[0].0 == text::opt(metas@[0].attr));
        match &metas[0].attr {
            Some(d) => trim_to_substance(d.as_str()),
            None => None,
        }
    };
    (title, description)
}

/// The title and the description that a page gives itself.
pub fn extract_meta(page: &str) -> (r: (Option<String>, Option<String>))
    ensures
        text::opt(r.0) == meta_title(page@),
        text::opt(r.1) == meta_description(page@),
{
    let titles = html::select(page, "title", "");
    let metas = html::select(
        page,
        r#"meta[name="description"], meta[property="og:description"]"#,
        "content",
    );
    meta_from(&titles, &metas)
}

// ── Layout tables ───────────────────────────────────────────────────────────

/// How many characters of a text are alphabetic.
pub open spec fn alphabetic_count(s: Seq<char>) -> nat
    decreases s.len(),
{
    if s.len() == 0 {
        0
    } else {
        alphabetic_count(s.drop_last()) + (if unicode::alphabetic(s.last()) {
            1nat
        } else {
            0
        })
    }
}

/// Markdown that was made of a layout table: many pipes, more than one for each twenty
/// letters, and padded cells.
pub open spec fn table_artifact(md: Seq<char>) -> bool {
    let pipes = text::count(md, seq!['|']);
    let letters = alphabetic_count(md);
    pipes > 20 && letters > 0 && 20 * pipes > letters && text::contains(md, "|  "@)
}

/// Whether the markdown was made of a layout table.
pub fn is_table_artifact(md: &str) -> (r: bool)
    ensures
        r == table_artifact(md@),
{
    let c = text::to_chars(md);
    let pipe: [char; 1] = ['|'];
    assert(pipe@ == seq!['|']);
    let pipes = text::count_in(&c, &pipe);
    let mut letters: usize = 0;
    let mut i: usize = 0;
    while i < c.len()
        invariant
            letters <= i <= c@.len(),
            letters == alphabetic_count(c@.take(i as int)),
        decreases c@.len() - i,
    {
        assert(c@.take(i + 1).drop_last() == c@.take(i as int));
        if c[i].is_alphabetic() {
            letters += 1;
        }
        i += 1;
    }
    assert(c@.take(i as int) == c@);
    pipes > 20 && letters > 0 && 20 * (pipes as u128) > letters as u128 && text::has(md, "|  ")
}

/// The links of a list without those whose target came before, in order.
pub open spec fn unique(links: Seq<(Seq<char>, Seq<char>)>) -> Seq<(Seq<char>, Seq<char>)>
    decreases links.len(),
{
    if links.len() == 0 {
        links
    } else {
        let rest = unique(links.drop_last());
        if targets(rest).contains(links.last().0) {
            rest
        } else {
            rest.push(links.last())
        }
    }
}

/// The targets of links.
pub open spec fn targets(links: Seq<(Seq<char>, Seq<char>)>) -> Seq<Seq<char>> {
    Seq::new(links.len(), |i: int| links[i].0)
}

/// A link as a list item.
pub open spec fn link_line(l: (Seq<char>, Seq<char>)) -> Seq<char> {
    "- ["@ + l.1 + "]("@ + l.0 + ")"@
}

/// The first fifty distinct links as list items, a line each.
pub open spec fn link_lines(links: Seq<(Seq<char>, Seq<char>)>) -> Seq<char> {
    let u = unique(links);
    let n = if u.len() < 50 {
        u.len()
    } else {
        50
    };
    text::joined(Seq::new(n, |i: int| link_line(u[i])), "\n"@)
}

/// Readable markdown made of a title, two thousand characters of the text that a page shows, and
/// its links.
pub open spec fn link_page(
    title: Seq<char>,
    links: Seq<(Seq<char>, Seq<char>)>,
    body: Seq<char>,
) -> Seq<char> {
    let rest = text::first(body, 2000) + "\n\n"@ + link_lines(links);
    if title.len() == 0 {
        rest
    } else {
        "# "@ + title + "\n\n"@ + rest
    }
}

/// The text that the body of a page shows, with one space between words.
pub open spec fn body_text(page: Seq<char>) -> Seq<char> {
    let e = html::css_select(page, "body"@, ""@);
    if e.len() == 0 {
        seq![]
    } else {
        element_text(e[0])
    }
}

/// One link as a list item.
fn write_link(l: &Link) -> (r: String)
    ensures
        r@ == link_line(l@),
{
    let mut r = "- [".to_owned();
    r.append(l.text.as_str());
    r.append("](");
    r.append(l.href.as_str());
    r.append(")");
    r
}

/// The first fifty distinct links as list items, a line each.
fn write_links(links: &[Link]) -> (r: String)
    ensures
        r@ == link_lines(link_views(links@)),
{
    let mut seen: Vec<String> = Vec::new();
    let mut lines: Vec<String> = Vec::new();
    let mut i: usize = 0;
    let ghost v = link_views(links@);
    while i < links.len()
        invariant
            i <= links@.len(),
            v == link_views(links@),
            text::views(seen@) == targets(unique(v.take(i as int))),
            lines@.len() <= 50,
            lines@.len() == (if seen@.len() < 50 {
                seen@.len()
            } else {
                50
            }),
            forall|j: int|
                0 <= j < lines@.len() ==> (#[trigger] lines@[j])@ == link_line(
                    unique(v.take(i as int))[j],
                ),
        decreases links@.len() - i,
    {
        let ghost u = unique(v.take(i as int));
        assert(v.take(i + 1).drop_last() == v.take(i as int));
        assert(targets(u).len() == u.len());
        if !text::listed(&seen, links[i].href.as_str()) {
            if seen.len() < 50 {
                lines.push(write_link(&links[i]));
            }
            let ghost before = text::views(seen@);
            seen.push(links[i].href.clone());
            assert(text::views(seen@) == before.push(v[i as int].0));
            assert(targets(u.push(v[i as int])) == targets(u).push(v[i as int].0));
        }
        i += 1;
    }
    proof {
        assert(v.take(i as int) == v);
        let u = unique(v);
        assert(targets(u).len() == u.len());
        assert(text::views(lines@) =~= Seq::new(lines@.len(), |j: int| link_line(u[j])));
    }
    text::join(&lines, "\n")
}

/// Readable markdown made of a title, two thousand characters of the text that a page shows, and
/// its links.
pub fn link_markdown(title: &str, links: &[Link], body: &str) -> (r: String)
    ensures
        r@ == link_page(title@, link_views(links@), body@),
{
    let mut r = String::new();
    if !title.is_empty() {
        r.append("# ");
        r.append(title);
        r.append("\n\n");
    }
    r.append(text::first_chars(body, 2000).as_str());
    r.append("\n\n");
    r.append(write_links(links).as_str());
    r
}

/// For pages whose conversion gave table garbage: readable markdown made of the title, the
/// text that the page shows, and the links.
pub fn generate_link_markdown(title: &str, links: &[Link], page: &str) -> (r: String)
    ensures
        r@ == link_page(title@, link_views(links@), body_text(page@)),
{
    let bodies = html::select(page, "body", "");
    let body = if bodies.len() == 0 {
        String::new()
    } else {
        assert(html::elements(bodies@)[0].1 == text::views(bodies@[0].text@));
        shown_text(&bodies[0].text)
    };
    link_markdown(title, links, body.as_str())
}

// ── Kind of page ────────────────────────────────────────────────────────────

/// How many list items the lines of a text begin.
pub open spec fn list_markers(md: Seq<char>) -> nat {
    text::count(md, "\n- "@) + text::count(md, "\n* "@) + text::count(md, "\n1. "@)
}

/// More than three links for each two hundred bytes of text.
pub open spec fn link_heavy(links: nat, text_len: nat) -> bool {
    text_len > 0 && 200 * links > 3 * text_len
}

/// The kind of a page: `article`, `list`, `media` or `unknown`.
pub open spec fn kind_of(md: Seq<char>, links: nat, text_len: nat, html_len: nat) -> Seq<char> {
    let headings = text::count(md, "\n#"@);
    if html_len < 2000 && text_len < 800 {
        "article"@
    } else if links > 20 && (link_heavy(links, text_len) || list_markers(md) > 10 || headings
        == 0) {
        "list"@
    } else if headings == 0 && links > 15 && text_len < 5000 {
        "list"@
    } else if text::contains(md, "!["@) && text_len < 500 {
        "media"@
    } else if text_len > 300 {
        "article"@
    } else {
        "unknown"@
    }
}

/// How many times the non-empty `pat` stands in `s`.
fn count_of(s: &[char], pat: &str) -> (r: usize)
    requires
        pat@.len() > 0,
    ensures
        r == text::count(s@, pat@),
{
    text::count_in(s, &text::to_chars(pat))
}

/// The kind of a page: `article`, `list`, `media` or `unknown`.
pub fn page_type(markdown: &str, links: &[Link], text_len: usize, html_len: usize) -> (r: String)
    ensures
        r@ == kind_of(markdown@, links@.len(), text_len as nat, html_len as nat),
{
    proof {
        reveal_strlit("\n- ");
        reveal_strlit("\n* ");
        reveal_strlit("\n1. ");
        reveal_strlit("\n#");
    }
    let c = text::to_chars(markdown);
    let n: usize = links.len();
    let heavy = text_len > 0 && 200 * (n as u128) > 3 * (text_len as u128);
    let markers: u128 = count_of(&c, "\n- ") as u128 + count_of(&c, "\n* ") as u128 + count_of(
        &c,
        "\n1. ",
    ) as u128;
    let headings = count_of(&c, "\n#");
    if html_len < 2000 && text_len < 800 {
        "article".to_owned()
    } else if n > 20 && (heavy || markers > 10 || headings == 0) {
        "list".to_owned()
    } else if headings == 0 && n > 15 && text_len < 5000 {
        "list".to_owned()
    } else if text::has(markdown, "![") && text_len < 500 {
        "media".to_owned()
    } else if text_len > 300 {
        "article".to_owned()
    } else {
        "unknown".to_owned()
    }
}

// ── The document ────────────────────────────────────────────────────────────

/// What the quality of a document is judged by.
#[derive(Debug, Clone, Copy, PartialEq, Eq, Structural)]
pub struct QualityInputs {
    /// Bytes of text.
    pub text_len: usize,
    /// Bytes of the page that it was extracted from.
    pub html_len: usize,
    pub links_len: usize,
    /// Bytes of the title that the reader gave.
    pub title_len: usize,
}

/// A page made readable.
#[derive(Debug)]
pub struct CleanDoc {
    pub title: String,
    pub markdown: String,
    pub clean_html: String,
    pub text: String,
    pub links: Vec<Link>,
    pub description: Option<String>,
    /// `article`, `list`, `media` or `unknown`.
    pub page_type: String,
    /// What the quality heuristic looks at.
    pub quality: QualityInputs,
}

/// The contents of a document.
#[verifier::ext_equal]
pub struct DocView {
    pub title: Seq<char>,
    pub markdown: Seq<char>,
    pub clean_html: Seq<char>,
    pub text: Seq<char>,
    pub links: Seq<(Seq<char>, Seq<char>)>,
    pub description: Option<Seq<char>>,
    pub page_type: Seq<char>,
    pub text_len: int,
    pub html_len: int,
    pub links_len: int,
    pub title_len: int,
}

impl View for CleanDoc {
    type V = DocView;

    open spec fn view(&self) -> DocView {
        DocView {
            title: self.title@,
            markdown: self.markdown@,
            clean_html: self.clean_html@,
            text: self.text@,
            links: link_views(self.links@),
            description: text::opt(self.description),
            page_type: self.page_type@,
            text_len: self.quality.text_len as int,
            html_len: self.quality.html_len as int,
            links_len: self.quality.links_len as int,
            title_len: self.quality.title_len as int,
        }
    }
}

impl CleanDoc {
    /// The document that stands for a page of which nothing could be made.
    pub fn empty() -> (r: CleanDoc)
        ensures
            r@ == nothing_extracted(),
    {
        proof {
            assert(link_views(Seq::<Link>::empty()) =~= Seq::empty());
        }
        CleanDoc {
            title: String::new(),
            markdown: String::new(),
            clean_html: String::new(),
            text: String::new(),
            links: Vec::new(),
            description: None,
            page_type: "unknown".to_owned(),
            quality: QualityInputs { text_len: 0, html_len: 0, links_len: 0, title_len: 0 },
        }
    }
}

/// The contents of a document of which nothing could be made.
pub open spec fn nothing_extracted() -> DocView {
    DocView {
        title: seq![],
        markdown: seq![],
        clean_html: seq![],
        text: seq![],
        links: seq![],
        description: None,
        page_type: "unknown"@,
        text_len: 0,
        html_len: 0,
        links_len: 0,
        title_len: 0,
    }
}

/// Why a page could not be made readable.
#[derive(Debug)]
pub enum ExtractError {
    /// The address of the page is not a URL; the parser's message.
    InvalidUrl(String),
    /// Lower-casing shortens the page by more than a byte, so that it cannot be scanned.
    Unscannable,
}

/// Why a page could not be made readable.
pub enum Failure {
    InvalidUrl(Seq<char>),
    Unscannable,
}

impl View for ExtractError {
    type V = Failure;

    open spec fn view(&self) -> Failure {
        match *self {
            ExtractError::InvalidUrl(m) => Failure::InvalidUrl(m@),
            ExtractError::Unscannable => Failure::Unscannable,
        }
    }
}

/// Title, markdown, sanitized HTML and text of a page, on the way to a document.
#[derive(Debug)]
pub struct Draft {
    pub title: String,
    pub markdown: String,
    pub clean_html: String,
    pub text: String,
}

/// The contents of a draft.
#[verifier::ext_equal]
pub struct DraftView {
    pub title: Seq<char>,
    pub markdown: Seq<char>,
    pub clean_html: Seq<char>,
    pub text: Seq<char>,
}

impl View for Draft {
    type V = DraftView;

    open spec fn view(&self) -> DraftView {
        DraftView {
            title: self.title@,
            markdown: self.markdown@,
            clean_html: self.clean_html@,
            text: self.text@,
        }
    }
}

/// Bytes of a text without white space at its ends.
pub open spec fn net_len(s: Seq<char>) -> nat {
    text::byte_len(text::trimmed(s))
}

/// Title, content and text that the reader finds on a page; the page itself, without title or
/// text, where it fails.
pub open spec fn article_of(page: Seq<char>, addr: Seq<char>) -> (
    Seq<char>,
    Seq<char>,
    Seq<char>,
) {
    match html::readable_article(page, addr) {
        Some(a) => a,
        None => (seq![], page, seq![]),
    }
}

/// Sanitized HTML as markdown; where it cannot be converted, its text and the links instead.
pub open spec fn converted(
    clean: Seq<char>,
    title: Seq<char>,
    links: Seq<(Seq<char>, Seq<char>)>,
) -> Seq<char> {
    if markup::convertible(clean) {
        html::markdown_of(clean)
    } else {
        link_page(title, links, body_text(clean))
    }
}

/// What the reader makes of a page.
pub open spec fn primary_draft(
    page: Seq<char>,
    addr: Seq<char>,
    links: Seq<(Seq<char>, Seq<char>)>,
) -> DraftView {
    let (title, content, body) = article_of(page, addr);
    let clean = html::sanitized(content);
    DraftView { title, markdown: converted(clean, title, links), clean_html: clean, text: body }
}

/// The reader produced little although the page shows much.
pub open spec fn needs_fallback(d: DraftView, visible: nat) -> bool {
    ||| net_len(d.text) < 300 && visible > 800
    ||| net_len(d.markdown) < 200 && visible > 600
    ||| net_len(d.text) < visible / 4 && visible > 1000
}

/// The reader's title, or, where it is blank, the one that the page gives itself.
pub open spec fn title_or(title: Seq<char>, meta: Option<Seq<char>>) -> Seq<char> {
    if text::trimmed(title).len() > 0 {
        title
    } else {
        match meta {
            Some(t) => t,
            None => seq![],
        }
    }
}

/// Markdown as it is, or, where it is table garbage, made of the links.
pub open spec fn without_tables(
    md: Seq<char>,
    title: Seq<char>,
    links: Seq<(Seq<char>, Seq<char>)>,
    clean: Seq<char>,
) -> Seq<char> {
    if table_artifact(md) {
        link_page(title, links, body_text(clean))
    } else {
        md
    }
}

/// The whole page cleaned and converted: captures lists, feeds and index pages.
pub open spec fn fallback_draft(
    page: Seq<char>,
    d: DraftView,
    links: Seq<(Seq<char>, Seq<char>)>,
) -> DraftView {
    let clean = html::sanitized(page);
    let title = title_or(d.title, meta_title(page));
    let md = without_tables(converted(clean, title, links), title, links, clean);
    DraftView { title, markdown: md, clean_html: clean, text: md }
}

/// The whole page is worth more than what the reader found.
pub open spec fn prefers_fallback(d: DraftView, fallback: DraftView) -> bool {
    ||| net_len(fallback.markdown) > 2 * net_len(d.markdown)
    ||| net_len(d.text) < 100 && net_len(fallback.markdown) > 300
}

/// The draft that is used: the reader's, or the whole page where that is needed and better.
pub open spec fn chosen_draft(
    page: Seq<char>,
    d: DraftView,
    links: Seq<(Seq<char>, Seq<char>)>,
    visible: nat,
) -> DraftView {
    let f = fallback_draft(page, d, links);
    if needs_fallback(d, visible) && prefers_fallback(d, f) {
        f
    } else {
        d
    }
}

/// A draft whose markdown, if it is table garbage, is replaced, and its text with it.
pub open spec fn readable_draft(
    d: DraftView,
    links: Seq<(Seq<char>, Seq<char>)>,
) -> DraftView {
    let md = without_tables(d.markdown, d.title, links, d.clean_html);
    DraftView {
        title: d.title,
        markdown: md,
        clean_html: d.clean_html,
        text: if table_artifact(d.markdown) {
            md
        } else {
            d.text
        },
    }
}

/// The document made of a draft, given the length of the page and what it says of itself.
pub open spec fn document(
    d: DraftView,
    links: Seq<(Seq<char>, Seq<char>)>,
    html_len: nat,
    meta_title: Option<Seq<char>>,
    description: Option<Seq<char>>,
) -> DocView {
    DocView {
        title: title_or(d.title, meta_title),
        markdown: d.markdown,
        clean_html: d.clean_html,
        text: d.text,
        links,
        description,
        page_type: kind_of(d.markdown, links.len(), net_len(d.text), html_len),
        text_len: net_len(d.text) as int,
        html_len: html_len as int,
        links_len: links.len() as int,
        title_len: text::byte_len(d.title) as int,
    }
}

/// The document made of a page, given its links and its visible length.
pub open spec fn document_of(
    page: Seq<char>,
    addr: Seq<char>,
    links: Seq<(Seq<char>, Seq<char>)>,
    visible: nat,
) -> DocView {
    document(
        readable_draft(chosen_draft(page, primary_draft(page, addr, links), links, visible), links),
        links,
        text::byte_len(page),
        meta_title(page),
        meta_description(page),
    )
}

/// The document made of a page, or why there is none.
pub open spec fn extracted(page: Seq<char>, addr: Seq<char>) -> Result<DocView, Failure> {
    let lower = unicode::lowercase(page);
    match url::url_parse(addr) {
        Err(m) => Err(Failure::InvalidUrl(m)),
        Ok(_) => if !scannable(page, lower) {
            Err(Failure::Unscannable)
        } else {
            Ok(document_of(page, addr, links_of(page, addr), visible_in(page, lower)))
        },
    }
}

/// Bytes of `s` without white space at its ends.
pub fn trimmed_len(s: &str) -> (r: usize)
    ensures
        r == net_len(s@),
{
    text::len(text::trim(s).as_str())
}

/// Sanitized HTML as markdown; where it cannot be converted, its text and the links instead.
fn convert(clean: &str, title: &str, links: &[Link]) -> (r: String)
    ensures
        r@ == converted(clean@, title@, link_views(links@)),
{
    if markup::can_convert(clean) {
        html::to_markdown(clean)
    } else {
        generate_link_markdown(title, links, clean)
    }
}

/// What the reader makes of a page.
fn read_primary(page: &str, addr: &str, links: &[Link]) -> (r: Draft)
    ensures
        r@ == primary_draft(page@, addr@, link_views(links@)),
{
    let (title, content, body) = match html::read_article(page, addr) {
        Some(a) => a,
        None => (String::new(), page.to_owned(), String::new()),
    };
    let clean_html = html::sanitize(content.as_str());
    let markdown = convert(clean_html.as_str(), title.as_str(), links);
    Draft { title, markdown, clean_html, text: body }
}

/// The reader's title, or, where it is blank, the one that the page gives itself.
pub fn pick_title(title: String, meta: Option<String>) -> (r: String)
    ensures
        r@ == title_or(title@, text::opt(meta)),
{
    if !text::trim(title.as_str()).as_str().is_empty() {
        title
    } else {
        match meta {
            Some(t) => t,
            None => String::new(),
        }
    }
}

/// Whether the reader produced little although the page shows much.
pub fn wants_fallback(d: &Draft, visible: usize) -> (r: bool)
    ensures
        r == needs_fallback(d@, visible as nat),
{
    let text_len = trimmed_len(d.text.as_str());
    let md_len = trimmed_len(d.markdown.as_str());
    (text_len < 300 && visible > 800) || (md_len < 200 && visible > 600) || (text_len < visible / 4
        && visible > 1000)
}

/// The better of what the reader found and the whole page.
pub fn pick_draft(primary: Draft, fallback: Draft) -> (r: Draft)
    ensures
        r == (if prefers_fallback(primary@, fallback@) {
            fallback
        } else {
            primary
        }),
{
    let text_len = trimmed_len(primary.text.as_str());
    let md_len = trimmed_len(primary.markdown.as_str());
    let fallback_len = trimmed_len(fallback.markdown.as_str());
    if fallback_len as u128 > 2 * (md_len as u128) || (text_len < 100 && fallback_len > 300) {
        fallback
    } else {
        primary
    }
}

/// Markdown as it is, or, where it is table garbage, made of the links.
fn replace_tables(md: String, title: &str, links: &[Link], clean: &str) -> (r: String)
    ensures
        r@ == without_tables(md@, title@, link_views(links@), clean@),
{
    if is_table_artifact(md.as_str()) {
        generate_link_markdown(title, links, clean)
    } else {
        md
    }
}

/// The whole page cleaned and converted.
fn read_fallback(page: &str, primary: &Draft, links: &[Link]) -> (r: Draft)
    ensures
        r@ == fallback_draft(page@, primary@, link_views(links@)),
{
    let clean_html = html::sanitize(page);
    let title = pick_title(primary.title.clone(), extract_meta(page).0);
    let markdown = replace_tables(
        convert(clean_html.as_str(), title.as_str(), links),
        title.as_str(),
        links,
        clean_html.as_str(),
    );
    let body = markdown.clone();
    Draft { title, markdown, clean_html, text: body }
}

/// The reader's draft, or the whole page where that is needed and better.
fn choose_draft(page: &str, primary: Draft, links: &[Link], visible: usize) -> (r: Draft)
    ensures
        r@ == chosen_draft(page@, primary@, link_views(links@), visible as nat),
{
    if !wants_fallback(&primary, visible) {
        return primary;
    }
    let fallback = read_fallback(page, &primary, links);
    pick_draft(primary, fallback)
}

/// The draft with table garbage replaced.
fn clear_tables(d: Draft, links: &[Link]) -> (r: Draft)
    ensures
        r@ == readable_draft(d@, link_views(links@)),
{
    if !is_table_artifact(d.markdown.as_str()) {
        return d;
    }
    let md = generate_link_markdown(d.title.as_str(), links, d.clean_html.as_str());
    let body = md.clone();
    Draft { title: d.title, markdown: md, clean_html: d.clean_html, text: body }
}

/// The document made of a draft, given the length of the page and what it says of itself.
pub fn finish(
    d: Draft,
    links: Vec<Link>,
    html_len: usize,
    meta_title: Option<String>,
    description: Option<String>,
) -> (r: CleanDoc)
    ensures
        r@ == document(
            d@,
            link_views(links@),
            html_len as nat,
            text::opt(meta_title),
            text::opt(description),
        ),
{
    let quality = QualityInputs {
        text_len: trimmed_len(d.text.as_str()),
        html_len,
        links_len: links.len(),
        title_len: text::len(d.title.as_str()),
    };
    let kind = page_type(d.markdown.as_str(), &links, quality.text_len, html_len);
    let title = pick_title(d.title, meta_title);
    assert(link_views(links@).len() == links@.len());
    CleanDoc {
        title,
        markdown: d.markdown,
        clean_html: d.clean_html,
        text: d.text,
        links,
        description,
        page_type: kind,
        quality,
    }
}

/// Makes a page readable: the article that the reader finds, or the whole page where the
/// reader finds little on a page that shows much.
pub fn extract(page: &str, addr: &str) -> (r: Result<CleanDoc, ExtractError>)
    ensures
        match r {
            Ok(d) => extracted(page@, addr@) == Ok::<DocView, Failure>(d@),
            Err(e) => extracted(page@, addr@) == Err::<DocView, Failure>(e@),
        },
        r is Err <==> url::url_parse(addr@) is Err || !scannable(
            page@,
            unicode::lowercase(page@),
        ),
{
    if let Err(m) = url::parse(addr) {
        return Err(ExtractError::InvalidUrl(m));
    }
    let visible = match visible_text_len(page) {
        Some(n) => n,
        None => {
            return Err(ExtractError::Unscannable);
        },
    };
    let links = extract_links(page, addr);
    let primary = read_primary(page, addr, &links);
    let chosen = choose_draft(page, primary, &links, visible);
    let draft = clear_tables(chosen, &links);
    let (meta_title, description) = extract_meta(page);
    Ok(finish(draft, links, text::len(page), meta_title, description))
}

// ── Laws ────────────────────────────────────────────────────────────────────

/// A link that may be listed: a target of bounded length and a short text that is not empty.
pub open spec fn presentable(l: (Seq<char>, Seq<char>)) -> bool {
    text::byte_len(l.0) <= 2048 && 0 < l.1.len() <= 100
}

proof fn lemma_candidates(
    anchors: Seq<(Option<Seq<char>>, Seq<Seq<char>>)>,
    base: Seq<char>,
)
    ensures
        forall|i: int|
            0 <= i < candidates(anchors, base).len() ==> {
                let c = #[trigger] candidates(anchors, base)[i];
                text::byte_len(c.0) <= 2048 && c.1.len() > 0
            },
    decreases anchors.len(),
{
    if anchors.len() > 0 {
        lemma_candidates(anchors.drop_last(), base);
        let rest = candidates(anchors.drop_last(), base);
        let all = candidates(anchors, base);
        assert forall|i: int| 0 <= i < all.len() implies ({
            let c = #[trigger] all[i];
            text::byte_len(c.0) <= 2048 && c.1.len() > 0
        }) by {
            if i < rest.len() {
                assert(all[i] == rest[i]);
            }
        }
    }
}

/// At most a hundred links are extracted from a page. Each has a target of at most 2048 bytes
/// and a text of at most a hundred characters, which is not empty.
pub proof fn links_are_bounded(page: Seq<char>, base: Seq<char>)
    ensures
        ({
            let links = links_of(page, base);
            &&& links.len() <= 100
            &&& forall|i: int| 0 <= i < links.len() ==> presentable(#[trigger] links[i])
        }),
{
    let anchors = html::css_select(page, "a[href]"@, "href"@);
    let c = first_candidates(anchors, base);
    let links = links_of(page, base);
    lemma_candidates(anchors, base);
    assert forall|i: int| 0 <= i < links.len() implies presentable(#[trigger] links[i]) by {
        assert(c[i] == candidates(anchors, base)[i]);
    }
}

/// A page is an article, a list, a media page or unknown.
pub proof fn there_are_four_kinds_of_pages(md: Seq<char>, links: nat, text_len: nat, html_len: nat)
    ensures
        ({
            let k = kind_of(md, links, text_len, html_len);
            k == "article"@ || k == "list"@ || k == "media"@ || k == "unknown"@
        }),
{
}

/// A short page with little text is an article, however many links it has.
pub proof fn short_pages_are_articles(md: Seq<char>, links: nat, text_len: nat, html_len: nat)
    requires
        html_len < 2000,
        text_len < 800,
    ensures
        kind_of(md, links, text_len, html_len) == "article"@,
{
}

/// No target is listed twice, and none is lost.
pub proof fn listed_targets_are_distinct(links: Seq<(Seq<char>, Seq<char>)>)
    ensures
        targets(unique(links)).no_duplicates(),
        forall|t: Seq<char>|
            #[trigger] targets(links).contains(t) ==> targets(unique(links)).contains(t),
    decreases links.len(),
{
    if links.len() > 0 {
        let less = links.drop_last();
        let rest = unique(less);
        let last = links.last().0;
        listed_targets_are_distinct(less);
        if !targets(rest).contains(last) {
            assert(targets(unique(links)) =~= targets(rest).push(last));
        }
        assert forall|t: Seq<char>| #[trigger] targets(links).contains(t) implies targets(
            unique(links),
        ).contains(t) by {
            let k = targets(links).index_of(t);
            if k < less.len() {
                assert(targets(less)[k] == t);
                assert(targets(less).contains(t));
                let m = targets(rest).index_of(t);
                assert(targets(unique(links))[m] == t);
            } else if !targets(rest).contains(last) {
                assert(targets(unique(links))[rest.len() as int] == t);
            }
        }
    }
}

/// Every page that can be scanned is made readable, whatever is on it, unless its address is no
/// URL. The document has the links and the description of the page, and is of one of four kinds.
pub proof fn pages_are_made_readable(page: Seq<char>, addr: Seq<char>)
    requires
        scannable(page, unicode::lowercase(page)),
    ensures
        extracted(page, addr) is Err <==> url::url_parse(addr) is Err,
        extracted(page, addr) matches Ok(d) ==> {
            &&& d.links == links_of(page, addr)
            &&& d.description == meta_description(page)
            &&& d.page_type == "article"@ || d.page_type == "list"@ || d.page_type == "media"@
                || d.page_type == "unknown"@
        },
{
}

/// What the document says is HTML has been through the sanitizer.
pub proof fn documents_are_sanitized(page: Seq<char>, addr: Seq<char>)
    ensures
        extracted(page, addr) matches Ok(d) ==> exists|c: Seq<char>|
            d.clean_html == #[trigger] html::sanitized(c),
{
    if let Ok(d) = extracted(page, addr) {
        let p = primary_draft(page, addr, links_of(page, addr));
        let content = article_of(page, addr).1;
        assert(p.clean_html == html::sanitized(content));
        assert(d.clean_html == html::sanitized(content) || d.clean_html == html::sanitized(page));
    }
}

/// The markdown of a document is no table garbage, unless it was made of the links because the
/// page had nothing better.
pub proof fn table_garbage_is_replaced(page: Seq<char>, addr: Seq<char>)
    ensures
        extracted(page, addr) matches Ok(d) ==> {
            ||| !table_artifact(d.markdown)
            ||| exists|title: Seq<char>, body: Seq<char>|
                d.markdown == #[trigger] link_page(title, d.links, body)
        },
{
    if let Ok(d) = extracted(page, addr) {
        let links = links_of(page, addr);
        let visible = visible_in(page, unicode::lowercase(page));
        let chosen = chosen_draft(page, primary_draft(page, addr, links), links, visible);
        if table_artifact(chosen.markdown) {
            assert(d.markdown == link_page(chosen.title, d.links, body_text(chosen.clean_html)));
        }
    }
}

// ── What a document must be ─────────────────────────────────────────────────

/// The markdown of a document is all that the converter makes of its HTML, with nothing left out,
/// wherever the HTML can be converted and gives no table garbage: at most twenty pipes, or one for
/// each twenty letters, or no padded cell.
pub proof fn articles_are_converted_whole(page: Seq<char>, addr: Seq<char>)
    ensures
        extracted(page, addr) matches Ok(d) ==> {
            let md = html::markdown_of(d.clean_html);
            markup::convertible(d.clean_html) && (text::count(md, seq!['|']) <= 20 || 20
                * text::count(md, seq!['|']) <= alphabetic_count(md) || !text::contains(md, "|  "@))
                ==> d.markdown == md
        },
{
}

/// Where the converter makes table garbage of what a document is made of, the document has a
/// readable page of its text and its links instead, as its markdown and as its text.
pub proof fn layout_tables_are_not_shown(page: Seq<char>, addr: Seq<char>) -> (title: Seq<char>)
    requires
        extracted(page, addr) matches Ok(d) && markup::convertible(d.clean_html) && ({
            let md = html::markdown_of(d.clean_html);
            let pipes = text::count(md, seq!['|']);
            pipes > 20 && 0 < alphabetic_count(md) < 20 * pipes && text::contains(md, "|  "@)
        }),
    ensures
        extracted(page, addr) matches Ok(d) && d.markdown == link_page(
            title,
            d.links,
            body_text(d.clean_html),
        ) && d.text == d.markdown,
{
    let links = links_of(page, addr);
    let visible = visible_in(page, unicode::lowercase(page));
    let primary = primary_draft(page, addr, links);
    let chosen = chosen_draft(page, primary, links, visible);
    chosen.title
}

/// An article of which the reader found enough is what the document is made of: three hundred
/// bytes of text, a quarter of what the page shows, and two hundred bytes of markdown. Its text
/// is the reader's unless the markdown was table garbage.
pub proof fn articles_are_taken_from_the_reader(
    page: Seq<char>,
    addr: Seq<char>,
    title: Seq<char>,
    content: Seq<char>,
    body: Seq<char>,
)
    requires
        url::url_parse(addr) is Ok,
        encode_utf8(page).len() <= encode_utf8(unicode::lowercase(page)).len() + 1,
        html::readable_article(page, addr) == Some((title, content, body)),
        markup::convertible(html::sanitized(content)),
        ({
            let md = html::markdown_of(html::sanitized(content));
            let size = encode_utf8(text::trimmed(body)).len();
            &&& size >= 300
            &&& visible_in(page, unicode::lowercase(page)) <= 4 * size + 3
            &&& encode_utf8(text::trimmed(md)).len() >= 200
        }),
    ensures
        extracted(page, addr) matches Ok(d) && {
            let md = html::markdown_of(html::sanitized(content));
            &&& d.clean_html == html::sanitized(content)
            &&& d.title_len == encode_utf8(title).len()
            &&& text::count(md, seq!['|']) <= 20 ==> d.markdown == md && d.text == body
                && d.text_len == encode_utf8(text::trimmed(body)).len()
        },
{
}

/// A page that shows much and of which the reader found next to nothing is converted as a whole:
/// less than a hundred bytes of text, where more than eight hundred are visible and the whole page
/// gives more than three hundred bytes of markdown and more than twice what the reader's part
/// gives.
pub proof fn lists_are_converted_as_a_whole(page: Seq<char>, addr: Seq<char>)
    requires
        url::url_parse(addr) is Ok,
        encode_utf8(page).len() <= encode_utf8(unicode::lowercase(page)).len() + 1,
        visible_in(page, unicode::lowercase(page)) > 800,
        markup::convertible(html::sanitized(page)),
        text::count(html::markdown_of(html::sanitized(page)), seq!['|']) <= 20,
        encode_utf8(text::trimmed(html::markdown_of(html::sanitized(page)))).len() > 300,
        html::readable_article(page, addr) matches Some(a) ==> encode_utf8(
            text::trimmed(a.2),
        ).len() < 100,
    ensures
        extracted(page, addr) matches Ok(d) && {
            &&& d.clean_html == html::sanitized(page)
            &&& d.markdown == html::markdown_of(html::sanitized(page))
            &&& d.text == d.markdown
        },
{
    if html::readable_article(page, addr) is None {
        let none: Seq<char> = seq![];
        text::blank_texts_are_white_space(none);
        assert(text::trimmed(none) =~= none);
        assert(encode_utf8(none) =~= Seq::<u8>::empty());
    }
}

/// A document is made of what the reader found or, if that fails or is little, of the whole page,
/// and of nothing else; and its text is the reader's or its markdown.
pub proof fn documents_are_made_of_the_page(page: Seq<char>, addr: Seq<char>)
    ensures
        extracted(page, addr) matches Ok(d) ==> {
            ||| d.clean_html == html::sanitized(page)
            ||| html::readable_article(page, addr) matches Some(a) && d.clean_html
                == html::sanitized(a.1)
        },
        extracted(page, addr) matches Ok(d) ==> {
            ||| d.text == d.markdown
            ||| html::readable_article(page, addr) matches Some(a) && d.text == a.2
            ||| html::readable_article(page, addr) is None && d.text.len() == 0
        },
{
}

/// What cannot be converted is shown as a page of its text and the links, under the title that the
/// reader found or that the document has.
pub proof fn what_cannot_be_converted_is_shown_as_links(page: Seq<char>, addr: Seq<char>) -> (title:
    Seq<char>)
    requires
        extracted(page, addr) matches Ok(d) && !markup::convertible(d.clean_html),
    ensures
        extracted(page, addr) matches Ok(d) && d.markdown == link_page(
            title,
            d.links,
            body_text(d.clean_html),
        ) && (title == d.title || title == article_of(page, addr).0),
{
    let links = links_of(page, addr);
    let visible = visible_in(page, unicode::lowercase(page));
    let primary = primary_draft(page, addr, links);
    let chosen = chosen_draft(page, primary, links, visible);
    if meta_title(page) is Some {
        lemma_substance(page);
    }
    let none: Seq<char> = seq![];
    text::blank_texts_are_white_space(none);
    chosen.title
}

/// A document has the title that the reader found, unless that is blank; and then the one that the
/// page gives itself, if it does.
pub proof fn titles_are_kept(page: Seq<char>, addr: Seq<char>, found: Seq<char>)
    requires
        html::readable_article(page, addr) matches Some(a) ==> found == a.0,
        html::readable_article(page, addr) is None ==> found.len() == 0,
    ensures
        extracted(page, addr) matches Ok(d) ==> {
            &&& (exists|i: int| 0 <= i < found.len() && !text::space(#[trigger] found[i])) ==> d.title
                == found
            &&& (forall|i: int| 0 <= i < found.len() ==> text::space(#[trigger] found[i])) ==> (
            match meta_title(page) {
                Some(t) => d.title == t,
                None => d.title.len() == 0,
            })
        },
{
    text::blank_texts_are_white_space(found);
    if meta_title(page) is Some {
        lemma_substance(page);
    }
    let none: Seq<char> = seq![];
    text::blank_texts_are_white_space(none);
    if html::readable_article(page, addr) is None {
        assert(found =~= none);
    }
    if let Ok(d) = extracted(page, addr) {
        let links = links_of(page, addr);
        let primary = primary_draft(page, addr, links);
        assert(primary.title == found);
    }
}

/// The title that a page gives itself is not blank, and trimming it again changes nothing.
proof fn lemma_substance(page: Seq<char>)
    requires
        meta_title(page) is Some,
    ensures
        text::trimmed(meta_title(page)->0).len() > 0,
{
    let e = html::css_select(page, "title"@, ""@);
    let s = text::joined(e[0].1, seq![]);
    let t = text::trimmed(s);
    lemma_trimmed_ends(s);
    text::blank_texts_are_white_space(t);
    assert(!text::space(t[0]));
}

proof fn lemma_trimmed_ends(s: Seq<char>)
    ensures
        text::trimmed(s).len() > 0 ==> !text::space(text::trimmed(s)[0]),
    decreases s.len(),
{
    if s.len() > 0 && text::space(s[0]) {
        lemma_trimmed_ends(s.drop_first());
    } else if s.len() > 0 {
        lemma_end_trimmed(s);
    }
}

proof fn lemma_end_trimmed(s: Seq<char>)
    requires
        s.len() > 0,
        !text::space(s[0]),
    ensures
        text::trim_end(s).len() > 0,
        text::trim_end(s)[0] == s[0],
    decreases s.len(),
{
    if text::space(s.last()) {
        assert(s.drop_last()[0] == s[0]);
        lemma_end_trimmed(s.drop_last());
    }
}

/// The title of a page is the text of its first title element, and its description the content of
/// its first description, each without white space at its ends and nothing where it is blank.
pub proof fn pages_describe_themselves(page: Seq<char>)
    ensures
        ({
            let titles = html::css_select(page, "title"@, ""@);
            let metas = html::css_select(
                page,
                r#"meta[name="description"], meta[property="og:description"]"#@,
                "content"@,
            );
            &&& titles.len() == 0 ==> meta_title(page) is None
            &&& titles.len() > 0 ==> {
                let t = text::trimmed(text::joined(titles[0].1, Seq::<char>::empty()));
                if t.len() == 0 {
                    meta_title(page) is None
                } else {
                    meta_title(page) == Some(t)
                }
            }
            &&& metas.len() == 0 || metas[0].0 is None ==> meta_description(page) is None
            &&& metas.len() > 0 ==> (metas[0].0 matches Some(c) ==> if text::trimmed(c).len() == 0 {
                meta_description(page) is None
            } else {
                meta_description(page) == Some(text::trimmed(c))
            })
        }),
{
    assert(seq![] =~= Seq::<char>::empty());
}

/// The positions of the anchors that make the links.
spec fn sources(anchors: Seq<(Option<Seq<char>>, Seq<Seq<char>>)>, base: Seq<char>) -> Seq<int>
    decreases anchors.len(),
{
    if anchors.len() == 0 {
        seq![]
    } else {
        let rest = sources(anchors.drop_last(), base);
        let a = anchors.last();
        match candidate(a, url::url_join(base, reference_of(a))) {
            Some(c) => rest.push(anchors.len() - 1),
            None => rest,
        }
    }
}

proof fn lemma_sources(anchors: Seq<(Option<Seq<char>>, Seq<Seq<char>>)>, base: Seq<char>)
    ensures
        ({
            let at = sources(anchors, base);
            let c = candidates(anchors, base);
            &&& at.len() == c.len()
            &&& forall|k: int|
                0 <= k < at.len() ==> 0 <= #[trigger] at[k] < anchors.len() && candidate(
                    anchors[at[k]],
                    url::url_join(base, reference_of(anchors[at[k]])),
                ) == Some(c[k])
            &&& forall|k: int, m: int| 0 <= k < m < at.len() ==> #[trigger] at[k] < #[trigger] at[m]
            &&& forall|i: int|
                0 <= i < anchors.len() && !at.contains(i) ==> candidate(
                    #[trigger] anchors[i],
                    url::url_join(base, reference_of(anchors[i])),
                ) is None
        }),
    decreases anchors.len(),
{
    if anchors.len() > 0 {
        let less = anchors.drop_last();
        lemma_sources(less, base);
        let rest = sources(less, base);
        let at = sources(anchors, base);
        assert forall|i: int| 0 <= i < anchors.len() && !at.contains(i) implies candidate(
            #[trigger] anchors[i],
            url::url_join(base, reference_of(anchors[i])),
        ) is None by {
            if i < less.len() {
                assert(less[i] == anchors[i]);
                if rest.contains(i) {
                    let k = rest.index_of(i);
                    assert(at[k] == i);
                }
            } else if candidate(anchors[i], url::url_join(base, reference_of(anchors[i]))) is Some {
                assert(at.last() == i);
            }
        }
    }
}

/// The links of a page are made by its anchors, in their order: each anchor whose reference is not
/// blank and leads out of the page, whose target has at most 2048 bytes, and which shows a word,
/// makes one, and no other does; only where there are more than a hundred does one make none. The
/// link leads to what the reference resolves to, or to the reference itself where it does not
/// resolve, and shows the words of the anchor with one space between them, the first hundred
/// characters of them.
pub proof fn anchors_make_links(page: Seq<char>, base: Seq<char>) -> (at: Seq<int>)
    ensures
        ({
            let anchors = html::css_select(page, "a[href]"@, "href"@);
            let links = links_of(page, base);
            &&& at.len() == links.len() <= 100
            &&& forall|k: int, m: int| 0 <= k < m < at.len() ==> #[trigger] at[k] < #[trigger] at[m]
            &&& forall|k: int|
                0 <= k < at.len() ==> 0 <= #[trigger] at[k] < anchors.len() && ({
                    let a = anchors[at[k]];
                    let href = text::trimmed(a.0->0);
                    let target = match url::url_join(base, href) {
                        Some(u) => u,
                        None => href,
                    };
                    let shown = text::joined(
                        text::words(text::joined(a.1, seq![' '])),
                        seq![' '],
                    );
                    &&& a.0 is Some
                    &&& href.len() > 0 && href[0] != '#'
                    &&& !text::starts_with(href, "javascript:"@)
                    &&& encode_utf8(target).len() <= 2048
                    &&& shown.len() > 0
                    &&& links[k].0 == target
                    &&& shown.len() <= 100 ==> links[k].1 == shown
                    &&& shown.len() > 100 ==> links[k].1 == shown.take(100)
                })
            &&& at.len() < 100 ==> forall|i: int|
                0 <= i < anchors.len() && !at.contains(i) ==> ({
                    let a = #[trigger] anchors[i];
                    let href = text::trimmed(a.0->0);
                    let target = match url::url_join(base, href) {
                        Some(u) => u,
                        None => href,
                    };
                    ||| a.0 is None
                    ||| href.len() == 0 || href[0] == '#'
                    ||| text::starts_with(href, "javascript:"@)
                    ||| encode_utf8(target).len() > 2048
                    ||| text::joined(
                        text::words(text::joined(a.1, seq![' '])),
                        seq![' '],
                    ).len() == 0
                })
        }),
{
    let anchors = html::css_select(page, "a[href]"@, "href"@);
    let all = candidates(anchors, base);
    let n = if all.len() < 100 {
        all.len() as int
    } else {
        100
    };
    lemma_sources(anchors, base);
    let full = sources(anchors, base);
    let at = full.take(n);
    let links = links_of(page, base);
    assert forall|k: int| 0 <= k < at.len() implies links[k] == (
        all[k].0,
        text::first(all[k].1, 100),
    ) && #[trigger] at[k] == full[k] by {
        text::first_items_are_the_beginning(all[k].1, 100);
        assert(first_candidates(anchors, base)[k] == all[k]);
    }
    assert forall|k: int| 0 <= k < at.len() implies {
        let shown = element_text(anchors[#[trigger] at[k]]);
        &&& shown.len() <= 100 ==> text::first(shown, 100) == shown
        &&& shown.len() > 100 ==> text::first(shown, 100) == shown.take(100)
    } by {
        text::first_items_are_the_beginning(element_text(anchors[at[k]]), 100);
    }
    if at.len() < 100 {
        assert(at =~= full);
    }
    at
}

/// Letters are counted one by one.
pub proof fn letters_are_counted(s: Seq<char>, c: char)
    ensures
        unicode::alphabetic(c) ==> alphabetic_count(s.push(c)) == alphabetic_count(s) + 1,
        !unicode::alphabetic(c) ==> alphabetic_count(s.push(c)) == alphabetic_count(s),
        alphabetic_count(Seq::<char>::empty()) == 0,
{
    assert(s.push(c).drop_last() =~= s);
}

proof fn lemma_unique_prefix(links: Seq<(Seq<char>, Seq<char>)>, i: int)
    requires
        0 <= i < links.len(),
        forall|j: int| 0 <= j < i ==> (#[trigger] links[j]).0 != links[i].0,
    ensures
        unique(links).contains(links[i]),
        unique(links).len() <= links.len(),
    decreases links.len(),
{
    let less = links.drop_last();
    let rest = unique(less);
    let all = unique(links);
    lemma_unique_small(links);
    if i == links.len() - 1 {
        if targets(rest).contains(links[i].0) {
            let k = targets(rest).index_of(links[i].0);
            lemma_unique_from(less, k);
            let j = choose|j: int| 0 <= j < less.len() && #[trigger] less[j] == rest[k];
            assert(links[j] == less[j]);
            assert(false);
        }
        assert(all.last() == links[i]);
    } else {
        assert(less[i] == links[i]);
        assert forall|j: int| 0 <= j < i implies (#[trigger] less[j]).0 != less[i].0 by {
            assert(less[j] == links[j]);
        }
        lemma_unique_prefix(less, i);
        let k = rest.index_of(links[i]);
        assert(all[k] == rest[k]);
    }
}

proof fn lemma_unique_small(links: Seq<(Seq<char>, Seq<char>)>)
    ensures
        unique(links).len() <= links.len(),
    decreases links.len(),
{
    if links.len() > 0 {
        lemma_unique_small(links.drop_last());
    }
}

proof fn lemma_unique_from(links: Seq<(Seq<char>, Seq<char>)>, k: int)
    requires
        0 <= k < unique(links).len(),
    ensures
        exists|j: int| 0 <= j < links.len() && #[trigger] links[j] == unique(links)[k],
    decreases links.len(),
{
    let less = links.drop_last();
    let rest = unique(less);
    if k < rest.len() {
        lemma_unique_from(less, k);
        let j = choose|j: int| 0 <= j < less.len() && #[trigger] less[j] == rest[k];
        assert(links[j] == less[j]);
    } else {
        assert(links[links.len() - 1] == unique(links)[k]);
    }
}

proof fn lemma_line_of_joined(p: Seq<Seq<char>>, sep: Seq<char>, k: int)
    requires
        0 <= k < p.len(),
    ensures
        text::contains(sep + text::joined(p, sep), sep + p[k]),
    decreases p.len(),
{
    let less = p.drop_last();
    let none = Seq::<char>::empty();
    let all = sep + text::joined(p, sep);
    let x = sep + p[k];
    if p.len() == 1 {
        text::what_is_put_in_is_found(none, x, none);
        assert(none + x + none =~= all);
    } else if k == p.len() - 1 {
        let front = sep + text::joined(less, sep);
        text::what_is_put_in_is_found(front, x, none);
        assert(front + x + none =~= all);
    } else {
        assert(less[k] == p[k]);
        lemma_line_of_joined(less, sep, k);
        let (a, b) = text::what_is_found_was_put_in(sep + text::joined(less, sep), x);
        text::what_is_put_in_is_found(a, x, b + sep + p.last());
        assert(a + x + (b + sep + p.last()) =~= (sep + text::joined(less, sep)) + sep + p.last());
        assert((sep + text::joined(less, sep)) + sep + p.last() =~= all);
    }
}

/// A page made of links begins with its title as a heading, if it has one; holds its whole text
/// where that has at most two thousand characters, and else the first two thousand; and lists its
/// links, where they are at most fifty, on a line each, each target once and with the text that it
/// came with first.
pub proof fn pages_of_links_show_text_and_links(
    title: Seq<char>,
    links: Seq<(Seq<char>, Seq<char>)>,
    body: Seq<char>,
)
    ensures
        ({
            let md = link_page(title, links, body);
            &&& title.len() > 0 ==> text::starts_with(md, "# "@ + title + "\n\n"@)
            &&& body.len() <= 2000 ==> text::contains(md, body)
            &&& body.len() > 2000 ==> text::contains(md, body.take(2000))
            &&& title.len() == 0 && body.len() <= 2000 ==> text::starts_with(md, body)
            &&& links.len() <= 50 ==> forall|i: int|
                0 <= i < links.len() && (forall|j: int|
                    0 <= j < i ==> (#[trigger] links[j]).0 != links[i].0) ==> text::contains(
                    md,
                    "\n"@ + ("- ["@ + (#[trigger] links[i]).1 + "]("@ + links[i].0 + ")"@),
                )
        }),
{
    let md = link_page(title, links, body);
    let head = if title.len() == 0 {
        Seq::<char>::empty()
    } else {
        "# "@ + title + "\n\n"@
    };
    let part = text::first(body, 2000);
    let lines = link_lines(links);
    let none = Seq::<char>::empty();
    text::first_items_are_the_beginning(body, 2000);
    let rest = part + "\n\n"@ + lines;
    assert(md =~= head + rest);
    assert(md =~= head + part + ("\n\n"@ + lines));
    text::what_is_put_in_is_found(head, part, "\n\n"@ + lines);
    text::what_is_put_in_is_found(none, head, rest);
    text::what_is_put_in_is_found(none, part, "\n\n"@ + lines);
    assert(rest =~= part + ("\n\n"@ + lines));
    if title.len() == 0 {
        assert(md =~= rest);
    }
    if links.len() <= 50 {
        let u = unique(links);
        assert forall|i: int|
            0 <= i < links.len() && (forall|j: int|
                0 <= j < i ==> (#[trigger] links[j]).0 != links[i].0) implies text::contains(
            md,
            "\n"@ + ("- ["@ + (#[trigger] links[i]).1 + "]("@ + links[i].0 + ")"@),
        ) by {
            lemma_unique_prefix(links, i);
            let k = u.index_of(links[i]);
            let n = if u.len() < 50 {
                u.len()
            } else {
                50
            };
            let items = Seq::new(n, |x: int| link_line(u[x]));
            assert(items[k] == link_line(links[i]));
            let line = link_line(links[i]);
            lemma_line_of_joined(items, "\n"@, k);
            let (a, b) = text::what_is_found_was_put_in("\n"@ + lines, "\n"@ + line);
            reveal_strlit("\n\n");
            reveal_strlit("\n");
            assert("\n\n"@ =~= "\n"@ + "\n"@);
            let front = head + part + "\n"@ + a;
            text::what_is_put_in_is_found(front, "\n"@ + line, b);
            assert(front + ("\n"@ + line) + b =~= head + part + "\n"@ + (a + ("\n"@ + line) + b));
            assert(head + part + "\n"@ + ("\n"@ + lines) =~= md);
        }
    }
}

/// What kind of page it is: with hardly any link and enough text an article; with more than twenty
/// links and no heading, or with a link for each sixty-six bytes of text, a list; with few links, a
/// picture and little text a media page; and with neither text nor links nor picture unknown. Short
/// pages are set aside.
pub proof fn kinds_follow_from_text_and_links(
    md: Seq<char>,
    links: nat,
    text_len: nat,
    html_len: nat,
)
    requires
        html_len >= 2000 || text_len >= 800,
    ensures
        ({
            let k = kind_of(md, links, text_len, html_len);
            let headings = text::count(md, "\n#"@);
            let items = text::count(md, "\n- "@) + text::count(md, "\n* "@) + text::count(
                md,
                "\n1. "@,
            );
            &&& links <= 15 && text_len >= 500 ==> k == "article"@
            &&& links <= 20 && headings > 0 && text_len >= 500 ==> k == "article"@
            &&& links > 20 && headings == 0 ==> k == "list"@
            &&& links > 20 && items > 10 ==> k == "list"@
            &&& links > 20 && 200 * links > 3 * text_len > 0 ==> k == "list"@
            &&& links > 15 && headings == 0 && text_len < 5000 ==> k == "list"@
            &&& links > 20 && headings > 0 && items <= 10 && 200 * links <= 3 * text_len && text_len
                >= 500 ==> k == "article"@
            &&& links <= 15 && text_len < 500 && text::contains(md, "!["@) ==> k == "media"@
            &&& links <= 15 && 300 < text_len && !text::contains(md, "!["@) ==> k == "article"@
            &&& links <= 15 && text_len <= 300 && !text::contains(md, "!["@) ==> k == "unknown"@
        }),
{
}

/// A document is of the kind that its markdown, its links, its text and its page give.
pub proof fn documents_tell_their_kind(page: Seq<char>, addr: Seq<char>)
    ensures
        extracted(page, addr) matches Ok(d) ==> {
            let size = encode_utf8(text::trimmed(d.text)).len();
            &&& d.page_type == kind_of(d.markdown, d.links.len(), size, encode_utf8(page).len())
            &&& d.text_len == size
            &&& d.html_len == encode_utf8(page).len()
            &&& d.links_len == d.links.len()
        },
{
}

proof fn lemma_visible_text(b: Seq<u8>, lb: Seq<u8>, i: int)
    requires
        0 <= i <= b.len(),
        forall|j: int| 0 <= j < b.len() ==> #[trigger] b[j] != 0x3c && b[j] != 0x3e,
        forall|j: int| 0 <= j < lb.len() ==> #[trigger] lb[j] != 0x3c,
    ensures
        visible_from(b, lb, i, false, false) == crate::fetcher::inked(b.skip(i)),
    decreases b.len() - i,
{
    if i < b.len() {
        lemma_no_tag(lb, i);
        lemma_visible_text(b, lb, i + 1);
        assert(b.skip(i)[0] == b[i]);
        assert(b.skip(i).drop_first() =~= b.skip(i + 1));
    } else {
        assert(b.skip(i) =~= Seq::<u8>::empty());
    }
}

proof fn lemma_no_tag(lb: Seq<u8>, i: int)
    requires
        forall|j: int| 0 <= j < lb.len() ==> #[trigger] lb[j] != 0x3c,
    ensures
        !text::occurs_at(lb, text::ascii("<script"@), i),
        !text::occurs_at(lb, text::ascii("<style"@), i),
{
    reveal_strlit("<script");
    reveal_strlit("<style");
    let a = text::ascii("<script"@);
    let b = text::ascii("<style"@);
    assert(a.len() == 7 && a[0] == 0x3c);
    assert(b.len() == 6 && b[0] == 0x3c);
    if 0 <= i && i + 7 <= lb.len() {
        assert(lb.subrange(i, i + 7)[0] == lb[i]);
    }
    if 0 <= i && i + 6 <= lb.len() {
        assert(lb.subrange(i, i + 6)[0] == lb[i]);
    }
}

/// Of a text without markup every byte is visible that is not white space.
pub proof fn plain_text_is_visible(s: Seq<char>, lower: Seq<char>)
    requires
        !s.contains('<') && !s.contains('>'),
        !lower.contains('<'),
    ensures
        visible_in(s, lower) == crate::fetcher::inked(encode_utf8(s)),
{
    text::lemma_no_byte(s, '<');
    text::lemma_no_byte(s, '>');
    text::lemma_no_byte(lower, '<');
    lemma_visible_text(encode_utf8(s), encode_utf8(lower), 0);
    assert(encode_utf8(s).skip(0) =~= encode_utf8(s));
}

/// The whole page takes the place of what the reader found exactly if the reader found little on a
/// page that shows much, and the whole page gives clearly more. Little is less than three hundred
/// bytes of text where eight hundred are visible, less than two hundred bytes of markdown where six
/// hundred are visible, or less than a quarter of the text where a thousand bytes are visible; and
/// clearly more is more than twice the markdown, or more than three hundred bytes of it where the
/// reader found less than a hundred bytes of text. Pages with many pipes are set aside.
pub proof fn whole_pages_take_the_place_of_little(
    page: Seq<char>,
    addr: Seq<char>,
    title: Seq<char>,
    content: Seq<char>,
    body: Seq<char>,
)
    requires
        url::url_parse(addr) is Ok,
        encode_utf8(page).len() <= encode_utf8(unicode::lowercase(page)).len() + 1,
        html::readable_article(page, addr) == Some((title, content, body)),
        markup::convertible(html::sanitized(content)),
        markup::convertible(html::sanitized(page)),
        text::count(html::markdown_of(html::sanitized(content)), seq!['|']) <= 20,
        text::count(html::markdown_of(html::sanitized(page)), seq!['|']) <= 20,
    ensures
        extracted(page, addr) matches Ok(d) && {
            let t = encode_utf8(text::trimmed(body)).len();
            let m = encode_utf8(
                text::trimmed(html::markdown_of(html::sanitized(content))),
            ).len();
            let w = encode_utf8(text::trimmed(html::markdown_of(html::sanitized(page)))).len();
            let v = visible_in(page, unicode::lowercase(page));
            let little = (t < 300 && v > 800) || (m < 200 && v > 600) || (4 * t + 4 <= v && v
                > 1000);
            if little && (w > 2 * m || (t < 100 && w > 300)) {
                &&& d.clean_html == html::sanitized(page)
                &&& d.markdown == html::markdown_of(html::sanitized(page))
                &&& d.text == d.markdown
            } else {
                &&& d.clean_html == html::sanitized(content)
                &&& d.markdown == html::markdown_of(html::sanitized(content))
                &&& d.text == body
            }
        },
{
    let v = visible_in(page, unicode::lowercase(page));
    let t = encode_utf8(text::trimmed(body)).len();
    assert(t < v / 4 <==> 4 * t + 4 <= v);
}

/// The text of a page is that of its body, its words with one space between each two of them.
pub proof fn bodies_are_read_word_by_word(page: Seq<char>)
    ensures
        ({
            let e = html::css_select(page, "body"@, ""@);
            &&& e.len() == 0 ==> body_text(page).len() == 0
            &&& e.len() > 0 ==> body_text(page) == text::joined(
                text::words(text::joined(e[0].1, seq![' '])),
                seq![' '],
            )
        }),
{
}

proof fn lemma_visible_behind(
    a: Seq<u8>,
    b: Seq<u8>,
    la: Seq<u8>,
    lb: Seq<u8>,
    i: int,
    in_tag: bool,
    in_script: bool,
)
    requires
        a.len() == la.len(),
        0 <= i,
    ensures
        visible_from(a + b, la + lb, a.len() + i, in_tag, in_script) == visible_from(
            b,
            lb,
            i,
            in_tag,
            in_script,
        ),
    decreases
            (if i < b.len() {
                b.len() - i
            } else {
                0
            }),
{
    let s = a + b;
    let l = la + lb;
    let n = a.len() as int;
    if i < b.len() {
        assert(s[n + i] == b[i]);
        lemma_sign_behind(la, lb, text::ascii("<script"@), i);
        lemma_sign_behind(la, lb, text::ascii("</script"@), i);
        lemma_sign_behind(la, lb, text::ascii("<style"@), i);
        lemma_sign_behind(la, lb, text::ascii("</style"@), i);
        if text::occurs_at(lb, text::ascii("<script"@), i) {
            lemma_visible_behind(a, b, la, lb, i + 7, in_tag, true);
        } else if in_script && text::occurs_at(lb, text::ascii("</script"@), i) {
            lemma_visible_behind(a, b, la, lb, i + 8, in_tag, false);
        } else if text::occurs_at(lb, text::ascii("<style"@), i) {
            lemma_visible_behind(a, b, la, lb, i + 6, in_tag, true);
        } else if in_script && text::occurs_at(lb, text::ascii("</style"@), i) {
            lemma_visible_behind(a, b, la, lb, i + 7, in_tag, false);
        } else {
            let tag = in_tag || b[i] == 0x3c;
            lemma_visible_behind(a, b, la, lb, i + 1, tag && b[i] != 0x3e, in_script);
        }
    }
}

proof fn lemma_sign_behind(a: Seq<u8>, b: Seq<u8>, pat: Seq<u8>, i: int)
    requires
        0 <= i,
    ensures
        text::occurs_at(a + b, pat, a.len() + i) == text::occurs_at(b, pat, i),
{
    let n = a.len() + i;
    if i + pat.len() <= b.len() {
        assert((a + b).subrange(n, n + pat.len()) =~= b.subrange(i, i + pat.len()));
    }
}

/// Inside a tag nothing is visible up to its end.
proof fn lemma_inside_tag(b: Seq<u8>, lb: Seq<u8>, i: int, end: int)
    requires
        0 <= i <= end < b.len(),
        b[end] == 0x3e,
        forall|j: int| i <= j < end ==> #[trigger] b[j] != 0x3e,
        forall|j: int| i <= j <= end && j < lb.len() ==> #[trigger] lb[j] != 0x3c,
    ensures
        visible_from(b, lb, i, true, false) == visible_from(b, lb, end + 1, false, false),
    decreases end - i,
{
    lemma_no_sign(lb, i);
    if i < end {
        lemma_inside_tag(b, lb, i + 1, end);
    }
}

proof fn lemma_no_sign(lb: Seq<u8>, i: int)
    requires
        i < lb.len() ==> lb[i] != 0x3c,
    ensures
        !text::occurs_at(lb, text::ascii("<script"@), i),
        !text::occurs_at(lb, text::ascii("<style"@), i),
        !text::occurs_at(lb, text::ascii("</script"@), i),
        !text::occurs_at(lb, text::ascii("</style"@), i),
{
    reveal_strlit("<script");
    reveal_strlit("<style");
    reveal_strlit("</script");
    reveal_strlit("</style");
    let a = text::ascii("<script"@);
    let b = text::ascii("<style"@);
    let c = text::ascii("</script"@);
    let d = text::ascii("</style"@);
    assert(a.len() == 7 && a[0] == 0x3c);
    assert(b.len() == 6 && b[0] == 0x3c);
    assert(c.len() == 8 && c[0] == 0x3c);
    assert(d.len() == 7 && d[0] == 0x3c);
    if 0 <= i && i + 6 <= lb.len() {
        assert(lb.subrange(i, i + 6)[0] == lb[i]);
    }
    if 0 <= i && i + 7 <= lb.len() {
        assert(lb.subrange(i, i + 7)[0] == lb[i]);
    }
    if 0 <= i && i + 8 <= lb.len() {
        assert(lb.subrange(i, i + 8)[0] == lb[i]);
    }
}

/// A tag shows nothing, and what follows it is visible as if it were not there. The page and its
/// lower-cased form are given byte for byte.
pub proof fn tags_are_not_visible(x: Seq<u8>, lx: Seq<u8>, r: Seq<u8>, lr: Seq<u8>)
    requires
        x.len() == lx.len() > 0,
        forall|j: int| 0 <= j < x.len() ==> #[trigger] x[j] != 0x3e,
        forall|j: int| 0 <= j < lx.len() ==> #[trigger] lx[j] != 0x3c,
        lx[0] != 0x73,
    ensures
        visible_from(
            seq![0x3cu8] + x + seq![0x3eu8] + r,
            seq![0x3cu8] + lx + seq![0x3eu8] + lr,
            0,
            false,
            false,
        ) == visible_from(r, lr, 0, false, false),
{
    let a = seq![0x3cu8] + x + seq![0x3eu8];
    let la = seq![0x3cu8] + lx + seq![0x3eu8];
    let b = a + r;
    let lb = la + lr;
    let end = 1 + x.len() as int;
    assert(b[0] == 0x3c && b[end] == 0x3e);
    assert(lb[1] == lx[0]);
    reveal_strlit("<script");
    reveal_strlit("<style");
    let script = text::ascii("<script"@);
    let style = text::ascii("<style"@);
    assert(script.len() == 7 && script[1] == 0x73);
    assert(style.len() == 6 && style[1] == 0x73);
    if text::occurs_at(lb, script, 0) {
        assert(lb.subrange(0, 7)[1] == lb[1]);
    }
    if text::occurs_at(lb, style, 0) {
        assert(lb.subrange(0, 6)[1] == lb[1]);
    }
    assert forall|j: int| 1 <= j < end implies #[trigger] b[j] != 0x3e by {
        assert(b[j] == x[j - 1]);
    }
    assert forall|j: int| 1 <= j <= end && j < lb.len() implies #[trigger] lb[j] != 0x3c by {
        if j < end {
            assert(lb[j] == lx[j - 1]);
        } else {
            assert(lb[j] == 0x3e);
        }
    }
    lemma_inside_tag(b, lb, 1, end);
    lemma_visible_behind(a, r, la, lr, 0, false, false);
    assert(a.len() == end + 1);
}

proof fn lemma_inside_script(b: Seq<u8>, lb: Seq<u8>, i: int, end: int, in_tag: bool)
    requires
        0 <= i <= end <= b.len(),
        forall|j: int| i <= j < end && j < lb.len() ==> #[trigger] lb[j] != 0x3c,
        forall|j: int| i <= j < end ==> #[trigger] b[j] != 0x3c && b[j] != 0x3e,
    ensures
        visible_from(b, lb, i, in_tag, true) == visible_from(b, lb, end, in_tag, true),
    decreases end - i,
{
    if i < end {
        lemma_no_sign(lb, i);
        lemma_inside_script(b, lb, i + 1, end, in_tag);
    }
}

/// What a script holds is not visible, up to its closing tag.
pub proof fn scripts_are_not_visible(x: Seq<u8>, lx: Seq<u8>, r: Seq<u8>, lr: Seq<u8>)
    requires
        x.len() == lx.len(),
        forall|j: int| 0 <= j < x.len() ==> #[trigger] x[j] != 0x3e && x[j] != 0x3c,
        forall|j: int| 0 <= j < lx.len() ==> #[trigger] lx[j] != 0x3c,
    ensures
        ({
            let open = text::ascii("<script"@);
            let close = text::ascii("</script"@);
            visible_from(open + x + close + r, open + lx + close + lr, 0, false, false)
                == visible_from(r, lr, 0, false, false)
        }),
{
    reveal_strlit("<script");
    reveal_strlit("</script");
    reveal_strlit("<style");
    let open = text::ascii("<script"@);
    let close = text::ascii("</script"@);
    assert(open.len() == 7 && close.len() == 8 && close[1] == 0x2f && open[1] == 0x73);
    let a = open + x + close;
    let la = open + lx + close;
    let b = a + r;
    let lb = la + lr;
    let end = 7 + x.len() as int;
    assert(lb.subrange(0, 7) =~= open);
    assert(text::occurs_at(lb, open, 0));
    assert forall|j: int| 7 <= j < end && j < lb.len() implies #[trigger] lb[j] != 0x3c by {
        assert(lb[j] == lx[j - 7]);
    }
    assert forall|j: int| 7 <= j < end implies #[trigger] b[j] != 0x3c && b[j] != 0x3e by {
        assert(b[j] == x[j - 7]);
    }
    lemma_inside_script(b, lb, 7, end, false);
    assert(lb.subrange(end, end + 8) =~= close);
    assert(text::occurs_at(lb, close, end));
    assert(lb[end + 1] == 0x2f);
    if text::occurs_at(lb, open, end) {
        assert(lb.subrange(end, end + 7)[1] == lb[end + 1]);
    }
    lemma_visible_behind(a, r, la, lr, 0, false, false);
    assert(a.len() == end + 8);
}

} // verus!
