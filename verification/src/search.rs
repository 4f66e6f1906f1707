//! Searching the web: what the engines are asked, how their pages are read, and how the hits
//! are merged, filtered and ranked.

use crate::address;
use crate::bindings::codec;
use crate::bindings::html;
use crate::bindings::html::Element;
use crate::bindings::unicode;
use crate::bindings::url;
use crate::bindings::url::UrlParts;
use crate::encoding;
use crate::focus;
use crate::order;
use crate::text;
use vstd::prelude::*;
use vstd::utf8::*;

verus! {

/// One hit of a search.
#[derive(Debug)]
pub struct SearchHit {
    pub title: String,
    pub url: String,
    pub snippet: String,
}

/// The contents of a hit.
pub struct HitView {
    pub title: Seq<char>,
    pub url: Seq<char>,
    pub snippet: Seq<char>,
}

impl View for SearchHit {
    type V = HitView;

    open spec fn view(&self) -> HitView {
        HitView { title: self.title@, url: self.url@, snippet: self.snippet@ }
    }
}

impl Clone for SearchHit {
    fn clone(&self) -> (r: SearchHit)
        ensures
            r == *self,
    {
        SearchHit {
            title: self.title.clone(),
            url: self.url.clone(),
            snippet: self.snippet.clone(),
        }
    }
}

/// The hits behind a list.
pub open spec fn hit_views(v: Seq<SearchHit>) -> Seq<HitView> {
    Seq::new(v.len(), |i: int| v[i]@)
}

/// What a search answers.
#[derive(Debug)]
pub struct SearchResult {
    pub query: String,
    pub hits: Vec<SearchHit>,
    pub total: usize,
}

impl SearchResult {
    /// The answer with the given hits.
    pub fn of(query: String, hits: Vec<SearchHit>) -> (r: SearchResult)
        ensures
            r.query == query,
            r.hits == hits,
            r.total == hits@.len(),
    {
        SearchResult { query, total: hits.len(), hits }
    }
}

// ── The question ────────────────────────────────────────────────────────────

/// A word with an operator before it, unless it is blank.
pub open spec fn operator(name: Seq<char>, word: Seq<char>) -> Seq<char> {
    let w = text::trimmed(word);
    if w.len() == 0 {
        seq![]
    } else {
        name + w
    }
}

/// The operators that keep sites out.
pub open spec fn exclusions(sites: Seq<Seq<char>>) -> Seq<char>
    decreases sites.len(),
{
    if sites.len() == 0 {
        seq![]
    } else {
        exclusions(sites.drop_last()) + operator(" -site:"@, sites.last())
    }
}

/// The operator for how recent hits should be; `lower` is the trimmed, lower-cased word.
pub open spec fn recency(lower: Seq<char>) -> Seq<char> {
    if lower == "day"@ || lower == "week"@ || lower == "month"@ || lower == "year"@ {
        " when:"@ + lower
    } else {
        seq![]
    }
}

/// A query with its operators, the recency given in lower case.
pub open spec fn question(
    query: Seq<char>,
    site: Option<Seq<char>>,
    excluded: Seq<Seq<char>>,
    recent: Option<Seq<char>>,
) -> Seq<char> {
    query + (match site {
        Some(s) => operator(" site:"@, s),
        None => seq![],
    }) + exclusions(excluded) + (match recent {
        Some(f) => recency(f),
        None => seq![],
    })
}

/// The text behind an optional text.
pub open spec fn opt_str(s: Option<&str>) -> Option<Seq<char>> {
    match s {
        Some(t) => Some(t@),
        None => None,
    }
}

/// A recency in lower case, without white space at its ends.
pub open spec fn tidied(f: Option<Seq<char>>) -> Option<Seq<char>> {
    match f {
        Some(t) => Some(unicode::lowercase(text::trimmed(t))),
        None => None,
    }
}

/// Adds an operator, unless its word is blank.
fn add_operator(q: &mut String, name: &str, word: &str)
    ensures
        final(q)@ == old(q)@ + operator(name@, word@),
{
    let w = text::trim(word);
    if !w.as_str().is_empty() {
        q.append(name);
        q.append(w.as_str());
        assert(q@ =~= old(q)@ + (name@ + w@));
    }
}

/// A query with its operators, the recency given in lower case.
pub fn write_question(
    query: &str,
    site: Option<&str>,
    excluded: &[String],
    recent: Option<&str>,
) -> (r: String)
    ensures
        r@ == question(query@, opt_str(site), text::views(excluded@), opt_str(recent)),
{
    let mut q = query.to_owned();
    if let Some(s) = site {
        add_operator(&mut q, " site:", s);
    }
    let ghost start = query@ + (match opt_str(site) {
        Some(s) => operator(" site:"@, s),
        None => seq![],
    });
    assert(q@ =~= start);
    let ghost all = text::views(excluded@);
    let mut i: usize = 0;
    assert(q@ =~= start + exclusions(all.take(0)));
    while i < excluded.len()
        invariant
            i <= excluded@.len(),
            all == text::views(excluded@),
            q@ == start + exclusions(all.take(i as int)),
        decreases excluded@.len() - i,
    {
        assert(all.take(i + 1).drop_last() == all.take(i as int));
        assert(all.take(i + 1).last() == excluded@[i as int]@);
        add_operator(&mut q, " -site:", excluded[i].as_str());
        assert(q@ =~= start + exclusions(all.take(i + 1)));
        i += 1;
    }
    assert(all.take(i as int) == all);
    let ghost before = q@;
    if let Some(f) = recent {
        if text::same(f, "day") || text::same(f, "week") || text::same(f, "month") || text::same(
            f,
            "year",
        ) {
            q.append(" when:");
            q.append(f);
            assert(q@ =~= before + recency(f@));
        } else {
            assert(q@ =~= before + recency(f@));
        }
    }
    assert(q@ =~= question(query@, opt_str(site), all, opt_str(recent)));
    q
}

/// The addresses at which the two engines answer a question.
pub open spec fn engine_addresses(q: Seq<char>) -> (Seq<char>, Seq<char>) {
    (
        "https://html.duckduckgo.com/html/?q="@ + encoding::encoded(q),
        "https://www.bing.com/search?q="@ + encoding::encoded(q),
    )
}

/// The addresses at which the two engines answer a query: DuckDuckGo's and Bing's.
pub fn search_addresses(
    query: &str,
    site: Option<&str>,
    excluded: &[String],
    freshness: Option<&str>,
) -> (r: (String, String))
    ensures
        (r.0@, r.1@) == engine_addresses(
            question(
                query@,
                opt_str(site),
                text::views(excluded@),
                tidied(opt_str(freshness)),
            ),
        ),
{
    let q = match freshness {
        Some(f) => {
            let lower = unicode::to_lowercase(text::trim(f).as_str());
            write_question(query, site, excluded, Some(lower.as_str()))
        },
        None => write_question(query, site, excluded, None),
    };
    let e = encoding::urlencoding(q.as_str());
    let mut a = "https://html.duckduckgo.com/html/?q=".to_owned();
    a.append(e.as_str());
    let mut b = "https://www.bing.com/search?q=".to_owned();
    b.append(e.as_str());
    (a, b)
}

// ── Reading elements ────────────────────────────────────────────────────────

/// The text of an element: its text nodes with a space between each two, trimmed.
pub open spec fn label_of(nodes: Seq<Seq<char>>) -> Seq<char> {
    text::trimmed(text::joined(nodes, " "@))
}

/// The text of an element.
fn label(e: &Element) -> (r: String)
    ensures
        r@ == label_of(e@.1),
{
    text::trim(text::join(&e.text, " ").as_str())
}

/// The target of a link, empty if it has none.
pub open spec fn target_of(attr: Option<Seq<char>>) -> Seq<char> {
    match attr {
        Some(h) => h,
        None => seq![],
    }
}

/// The target of a link, empty if it has none.
fn target(e: &Element) -> (r: String)
    ensures
        r@ == target_of(e@.0),
{
    match &e.attr {
        Some(h) => h.clone(),
        None => String::new(),
    }
}

/// The value of a parameter: what follows its name for the first time, up to the next
/// occurrence of the name or the next ampersand.
pub open spec fn parameter(href: Seq<char>, name: Seq<char>) -> Option<Seq<char>> {
    let parts = text::pieces(href, name);
    if parts.len() > 1 {
        Some(text::pieces(parts[1], "&"@)[0])
    } else {
        None
    }
}

/// The value of a parameter with a name that is not empty.
fn read_parameter(href: &str, name: &str) -> (r: Option<String>)
    requires
        name@.len() > 0,
    ensures
        text::opt(r) == parameter(href@, name@),
{
    proof {
        reveal_strlit("&");
    }
    let parts = text::split(href, name);
    let ghost p = text::views(parts@);
    assert(p.len() == parts@.len());
    if parts.len() > 1 {
        assert(p[1] == parts@[1]@);
        let values = text::split(parts[1].as_str(), "&");
        assert(text::views(values@)[0] == values@[0]@);
        Some(values[0].clone())
    } else {
        None
    }
}

// ── DuckDuckGo ──────────────────────────────────────────────────────────────

/// Where a redirecting link of the engine leads, if the link is one.
pub open spec fn redirect_of(href: Seq<char>) -> Option<Seq<char>> {
    match parameter(href, "uddg="@) {
        Some(v) => Some(encoding::decoded(v)),
        None => None,
    }
}

/// Where a redirecting link of the engine leads, if the link is one.
pub fn read_redirect(href: &str) -> (r: Option<String>)
    ensures
        text::opt(r) == redirect_of(href@),
{
    proof {
        reveal_strlit("uddg=");
    }
    match read_parameter(href, "uddg=") {
        Some(v) => Some(encoding::urlencoding_decode(v.as_str())),
        None => None,
    }
}

/// The text of a result's summary, empty if it has none.
pub open spec fn summary_of(e: Option<(Option<Seq<char>>, Seq<Seq<char>>)>) -> Seq<char> {
    match e {
        Some(x) => label_of(x.1),
        None => seq![],
    }
}

/// The hit that a result of DuckDuckGo makes, given its heading, its summary and the URL that
/// its redirecting link leads to.
pub open spec fn ddg_hit_of(
    heading: (Option<Seq<char>>, Seq<Seq<char>>),
    summary: Option<(Option<Seq<char>>, Seq<Seq<char>>)>,
    resolved: Option<Seq<char>>,
) -> Option<HitView> {
    let title = label_of(heading.1);
    let addr = match resolved {
        Some(u) => u,
        None => target_of(heading.0),
    };
    if title.len() > 0 && addr.len() > 0 && text::starts_with(addr, "http"@) {
        Some(HitView { title, url: addr, snippet: summary_of(summary) })
    } else {
        None
    }
}

/// The hit that a result of DuckDuckGo makes, if it makes one.
pub fn ddg_hit(heading: &Element, summary: Option<&Element>, resolved: Option<String>) -> (r: Option<
    SearchHit,
>)
    ensures
        match r {
            Some(h) => ddg_hit_of(
                heading@,
                match summary {
                    Some(e) => Some(e@),
                    None => None,
                },
                text::opt(resolved),
            ) == Some(h@),
            None => ddg_hit_of(
                heading@,
                match summary {
                    Some(e) => Some(e@),
                    None => None,
                },
                text::opt(resolved),
            ) is None,
        },
{
    let title = label(heading);
    let addr = match resolved {
        Some(u) => u,
        None => target(heading),
    };
    let snippet = match summary {
        Some(e) => label(e),
        None => String::new(),
    };
    if !title.as_str().is_empty() && !addr.as_str().is_empty() && text::has_prefix(
        addr.as_str(),
        "http",
    ) {
        Some(SearchHit { title, url: addr, snippet })
    } else {
        None
    }
}

/// The URL that a text is, if it is one.
pub open spec fn as_url(s: Option<Seq<char>>) -> Option<Seq<char>> {
    match s {
        Some(t) => match url::url_parse(t) {
            Ok(u) => Some(u.0),
            Err(_) => None,
        },
        None => None,
    }
}

/// The summary at a position, if there is one.
pub open spec fn summary_at(
    summaries: Seq<Option<(Option<Seq<char>>, Seq<Seq<char>>)>>,
    i: int,
) -> Option<(Option<Seq<char>>, Seq<Seq<char>>)> {
    if 0 <= i < summaries.len() {
        summaries[i]
    } else {
        None
    }
}

/// The hits that the first `n` results of DuckDuckGo make.
pub open spec fn ddg_results(
    headings: Seq<Option<(Option<Seq<char>>, Seq<Seq<char>>)>>,
    summaries: Seq<Option<(Option<Seq<char>>, Seq<Seq<char>>)>>,
    n: int,
) -> Seq<HitView>
    decreases n,
{
    if n <= 0 {
        seq![]
    } else {
        let rest = ddg_results(headings, summaries, n - 1);
        match headings[n - 1] {
            Some(e) => match ddg_hit_of(
                e,
                summary_at(summaries, n - 1),
                as_url(redirect_of(target_of(e.0))),
            ) {
                Some(h) => rest.push(h),
                None => rest,
            },
            None => rest,
        }
    }
}

/// Where a link of the engine's page leads.
pub open spec fn ddg_link_target(attr: Option<Seq<char>>) -> Seq<char> {
    let t = text::trimmed(target_of(attr));
    let h = if text::starts_with(t, "//"@) {
        "https:"@ + t
    } else {
        t
    };
    match redirect_of(h) {
        Some(d) => if text::contains(h, "duckduckgo.com/l/?"@) {
            d
        } else {
            h
        },
        None => h,
    }
}

/// The hit that a mere link of the engine's page makes, if it leads away from the engine and
/// has a text of some length.
pub open spec fn ddg_link_of(e: (Option<Seq<char>>, Seq<Seq<char>>)) -> Option<HitView> {
    let title = label_of(e.1);
    let addr = ddg_link_target(e.0);
    if text::starts_with(addr, "http"@) && !text::contains(addr, "duckduckgo.com"@) && 10
        <= text::byte_len(title) <= 200 {
        Some(HitView { title, url: addr, snippet: seq![] })
    } else {
        None
    }
}

/// The hits that the links of the engine's page make.
pub open spec fn ddg_links(links: Seq<(Option<Seq<char>>, Seq<Seq<char>>)>) -> Seq<HitView>
    decreases links.len(),
{
    if links.len() == 0 {
        seq![]
    } else {
        match ddg_link_of(links.last()) {
            Some(h) => ddg_links(links.drop_last()).push(h),
            None => ddg_links(links.drop_last()),
        }
    }
}

/// The hits of a page of DuckDuckGo: those of its results or, if there are none, of its links.
pub open spec fn ddg_page(page: Seq<char>) -> Seq<HitView> {
    let headings = html::css_select_first_within(page, ".result"@, "h2.result__title a"@, "href"@);
    let summaries = html::css_select_first_within(page, ".result"@, ".result__snippet"@, "href"@);
    let results = ddg_results(headings, summaries, headings.len() as int);
    if results.len() == 0 {
        ddg_links(html::css_select(page, "a[href]"@, "href"@))
    } else {
        results
    }
}

/// The hit that a mere link of the engine's page makes, if it makes one.
pub fn ddg_link(e: &Element) -> (r: Option<SearchHit>)
    ensures
        match r {
            Some(h) => ddg_link_of(e@) == Some(h@),
            None => ddg_link_of(e@) is None,
        },
{
    let mut href = text::trim(target(e).as_str());
    if text::has_prefix(href.as_str(), "//") {
        let mut full = "https:".to_owned();
        full.append(href.as_str());
        href = full;
    }
    if text::has(href.as_str(), "duckduckgo.com/l/?") {
        if let Some(d) = read_redirect(href.as_str()) {
            href = d;
        }
    }
    assert(href@ == ddg_link_target(e@.0));
    if !text::has_prefix(href.as_str(), "http") || text::has(href.as_str(), "duckduckgo.com") {
        return None;
    }
    let title = label(e);
    let len = text::len(title.as_str());
    if len < 10 || len > 200 {
        return None;
    }
    Some(SearchHit { title, url: href, snippet: String::new() })
}

/// Adds a hit, if there is one.
fn add_hit(hits: &mut Vec<SearchHit>, hit: Option<SearchHit>)
    ensures
        hit_views(final(hits)@) == match hit {
            Some(h) => hit_views(old(hits)@).push(h@),
            None => hit_views(old(hits)@),
        },
{
    if let Some(h) = hit {
        hits.push(h);
        assert(hit_views(hits@) =~= hit_views(old(hits)@).push(h@));
    }
}

/// The URL that a text is, if it is one.
fn parsed_text(s: Option<String>) -> (r: Option<String>)
    ensures
        text::opt(r) == as_url(text::opt(s)),
{
    match s {
        Some(t) => match url::parse(t.as_str()) {
            Ok(u) => Some(u.text),
            Err(_) => None,
        },
        None => None,
    }
}

/// The hits of a page of DuckDuckGo.
pub fn ddg_hits(page: &str) -> (r: Vec<SearchHit>)
    ensures
        hit_views(r@) == ddg_page(page@),
{
    let headings = html::select_first_within(page, ".result", "h2.result__title a", "href");
    let summaries = html::select_first_within(page, ".result", ".result__snippet", "href");
    let ghost h = html::optional_elements(headings@);
    let ghost s = html::optional_elements(summaries@);
    assert(h.len() == headings@.len());
    assert(s.len() == summaries@.len());
    let mut hits: Vec<SearchHit> = Vec::new();
    let mut i: usize = 0;
    assert(hit_views(hits@) =~= Seq::empty());
    while i < headings.len()
        invariant
            i <= headings@.len(),
            h == html::optional_elements(headings@),
            s == html::optional_elements(summaries@),
            s.len() == summaries@.len(),
            hit_views(hits@) == ddg_results(h, s, i as int),
        decreases headings@.len() - i,
    {
        if let Some(e) = &headings[i] {
            assert(h[i as int] == Some(e@));
            let resolved = parsed_text(read_redirect(target(e).as_str()));
            let summary = if i < summaries.len() {
                match &summaries[i] {
                    Some(x) => Some(x),
                    None => None,
                }
            } else {
                None
            };
            let hit = ddg_hit(e, summary, resolved);
            add_hit(&mut hits, hit);
        }
        i += 1;
    }
    assert(hit_views(hits@).len() == hits@.len());
    if hits.len() > 0 {
        return hits;
    }
    let links = html::select(page, "a[href]", "href");
    let ghost l = html::elements(links@);
    let mut k: usize = 0;
    assert(hit_views(hits@) =~= ddg_links(l.take(0)));
    while k < links.len()
        invariant
            k <= links@.len(),
            l == html::elements(links@),
            hit_views(hits@) == ddg_links(l.take(k as int)),
        decreases links@.len() - k,
    {
        assert(l.take(k + 1).drop_last() == l.take(k as int));
        assert(l.take(k + 1).last() == links@[k as int]@);
        let hit = ddg_link(&links[k]);
        add_hit(&mut hits, hit);
        k += 1;
    }
    assert(l.take(k as int) == l);
    hits
}

// ── Bing ────────────────────────────────────────────────────────────────────

/// A text filled up with equals signs to a multiple of four bytes.
pub open spec fn padded(s: Seq<char>) -> Seq<char> {
    s + Seq::new(((4 - text::byte_len(s) % 4) % 4) as nat, |i: int| '=')
}

/// The encoded target that a redirecting link of the engine carries, if it is one.
pub open spec fn payload_of(href: Seq<char>) -> Option<Seq<char>> {
    match parameter(href, "u="@) {
        Some(u) => if text::contains(href, "bing.com/ck/a"@) {
            Some(
                padded(
                    if text::starts_with(u, "a1"@) {
                        u.skip(2)
                    } else {
                        u
                    },
                ),
            )
        } else {
            None
        },
        None => None,
    }
}

/// The encoded target that a redirecting link of the engine carries, if it is one.
pub fn read_payload(href: &str) -> (r: Option<String>)
    ensures
        text::opt(r) == payload_of(href@),
{
    proof {
        reveal_strlit("u=");
        reveal_strlit("a1");
    }
    if !text::has(href, "bing.com/ck/a") {
        return None;
    }
    match read_parameter(href, "u=") {
        Some(u) => {
            let c = text::to_chars(u.as_str());
            let from: usize = if text::has_prefix(u.as_str(), "a1") {
                2
            } else {
                0
            };
            let mut b = text::from_chars(&c, from, c.len());
            let ghost bare = b@;
            assert(bare =~= if text::starts_with(u@, "a1"@) {
                u@.skip(2)
            } else {
                u@
            });
            let n: usize = (4 - text::len(b.as_str()) % 4) % 4;
            let mut i: usize = 0;
            assert(b@ =~= bare + Seq::new(0, |i: int| '='));
            while i < n
                invariant
                    i <= n,
                    b@ == bare + Seq::new(i as nat, |i: int| '='),
                decreases n - i,
            {
                b.push('=');
                i += 1;
                assert(b@ =~= bare + Seq::new(i as nat, |i: int| '='));
            }
            Some(b)
        },
        None => None,
    }
}

/// What an encoded target says, if it is a text.
pub open spec fn unwrapped(payload: Option<Seq<char>>) -> Option<Seq<char>> {
    match payload {
        Some(p) => match codec::base64_bytes(p) {
            Some(b) => if valid_utf8(b) {
                Some(decode_utf8(b))
            } else {
                None
            },
            None => None,
        },
        None => None,
    }
}

/// What an encoded target says, if it is a text.
fn unwrap_payload(payload: Option<String>) -> (r: Option<String>)
    ensures
        text::opt(r) == unwrapped(text::opt(payload)),
{
    match payload {
        Some(p) => match codec::base64_decode(p.as_str()) {
            Some(b) => unicode::from_utf8(b),
            None => None,
        },
        None => None,
    }
}

/// The hit that a link of Bing makes, given where it leads if it redirects. A strict reading
/// wants it to lead away from the engine and to have a text of some length.
pub open spec fn bing_hit_of(
    e: (Option<Seq<char>>, Seq<Seq<char>>),
    leads_to: Option<Seq<char>>,
    strict: bool,
) -> Option<HitView> {
    let title = label_of(e.1);
    let addr = match leads_to {
        Some(u) => u,
        None => text::trimmed(target_of(e.0)),
    };
    if text::starts_with(addr, "http"@) && title.len() > 0 && (strict ==> !text::contains(
        addr,
        "bing.com"@,
    ) && text::byte_len(title) >= 10) {
        Some(HitView { title, url: addr, snippet: seq![] })
    } else {
        None
    }
}

/// The hit that a link of Bing makes, if it makes one.
pub fn bing_hit(e: &Element, leads_to: Option<String>, strict: bool) -> (r: Option<SearchHit>)
    ensures
        match r {
            Some(h) => bing_hit_of(e@, text::opt(leads_to), strict) == Some(h@),
            None => bing_hit_of(e@, text::opt(leads_to), strict) is None,
        },
{
    let addr = match leads_to {
        Some(u) => u,
        None => text::trim(target(e).as_str()),
    };
    if !text::has_prefix(addr.as_str(), "http") {
        return None;
    }
    let title = label(e);
    if title.as_str().is_empty() {
        return None;
    }
    if strict && (text::has(addr.as_str(), "bing.com") || text::len(title.as_str()) < 10) {
        return None;
    }
    Some(SearchHit { title, url: addr, snippet: String::new() })
}

/// The hits that links of Bing make.
pub open spec fn bing_links(
    links: Seq<(Option<Seq<char>>, Seq<Seq<char>>)>,
    strict: bool,
) -> Seq<HitView>
    decreases links.len(),
{
    if links.len() == 0 {
        seq![]
    } else {
        let e = links.last();
        match bing_hit_of(e, unwrapped(payload_of(text::trimmed(target_of(e.0)))), strict) {
            Some(h) => bing_links(links.drop_last(), strict).push(h),
            None => bing_links(links.drop_last(), strict),
        }
    }
}

/// The hits of a page of Bing: those of its results or, if there are none, of its headings.
pub open spec fn bing_page(page: Seq<char>) -> Seq<HitView> {
    let results = bing_links(html::css_select(page, "li.b_algo h2 a"@, "href"@), false);
    if results.len() == 0 {
        bing_links(html::css_select(page, "h2 a[href]"@, "href"@), true)
    } else {
        results
    }
}

/// The hits that links of Bing make.
fn read_bing_links(links: &[Element], strict: bool) -> (r: Vec<SearchHit>)
    ensures
        hit_views(r@) == bing_links(html::elements(links@), strict),
{
    let ghost l = html::elements(links@);
    let mut hits: Vec<SearchHit> = Vec::new();
    let mut k: usize = 0;
    assert(hit_views(hits@) =~= bing_links(l.take(0), strict));
    while k < links.len()
        invariant
            k <= links@.len(),
            l == html::elements(links@),
            hit_views(hits@) == bing_links(l.take(k as int), strict),
        decreases links@.len() - k,
    {
        assert(l.take(k + 1).drop_last() == l.take(k as int));
        assert(l.take(k + 1).last() == links@[k as int]@);
        let href = text::trim(target(&links[k]).as_str());
        let leads_to = unwrap_payload(read_payload(href.as_str()));
        let hit = bing_hit(&links[k], leads_to, strict);
        add_hit(&mut hits, hit);
        k += 1;
    }
    assert(l.take(k as int) == l);
    hits
}

/// The hits of a page of Bing.
pub fn bing_hits(page: &str) -> (r: Vec<SearchHit>)
    ensures
        hit_views(r@) == bing_page(page@),
{
    let hits = read_bing_links(&html::select(page, "li.b_algo h2 a", "href"), false);
    assert(hit_views(hits@).len() == hits@.len());
    if hits.len() > 0 {
        return hits;
    }
    read_bing_links(&html::select(page, "h2 a[href]", "href"), true)
}

// ── Merging ─────────────────────────────────────────────────────────────────

/// The hits of both engines, each with whether it is DuckDuckGo's.
pub open spec fn tagged(ddg: Seq<HitView>, bing: Seq<HitView>) -> Seq<(HitView, bool)> {
    Seq::new(ddg.len(), |i: int| (ddg[i], true)) + Seq::new(bing.len(), |i: int| (bing[i], false))
}

/// The normal forms of the addresses of hits.
pub open spec fn normals(hits: Seq<(HitView, bool)>) -> Seq<Seq<char>> {
    Seq::new(hits.len(), |i: int| address::normal(hits[i].0.url))
}

/// The hits, each page only where it comes first.
pub open spec fn merged(hits: Seq<(HitView, bool)>) -> Seq<(HitView, bool)>
    decreases hits.len(),
{
    if hits.len() == 0 {
        hits
    } else {
        let rest = merged(hits.drop_last());
        if normals(rest).contains(address::normal(hits.last().0.url)) {
            rest
        } else {
            rest.push(hits.last())
        }
    }
}

/// A hit, and whether it is DuckDuckGo's.
pub struct Tagged {
    pub hit: SearchHit,
    pub from_ddg: bool,
}

/// The tagged hits behind a list.
pub open spec fn tagged_views(v: Seq<Tagged>) -> Seq<(HitView, bool)> {
    Seq::new(v.len(), |i: int| (v[i].hit@, v[i].from_ddg))
}

/// Adds those hits of a list whose pages were not seen.
fn merge_into(
    out: &mut Vec<Tagged>,
    seen: &mut Vec<String>,
    hits: &[SearchHit],
    from_ddg: bool,
    Ghost(before): Ghost<Seq<(HitView, bool)>>,
)
    requires
        tagged_views(old(out)@) == merged(before),
        text::views(old(seen)@) == normals(merged(before)),
    ensures
        tagged_views(final(out)@) == merged(
            before + Seq::new(hits@.len(), |i: int| (hits@[i]@, from_ddg)),
        ),
        text::views(final(seen)@) == normals(tagged_views(final(out)@)),
{
    let ghost more = Seq::new(hits@.len(), |i: int| (hits@[i]@, from_ddg));
    let mut i: usize = 0;
    assert(before + more.take(0) =~= before);
    while i < hits.len()
        invariant
            i <= hits@.len(),
            more == Seq::new(hits@.len(), |i: int| (hits@[i]@, from_ddg)),
            tagged_views(out@) == merged(before + more.take(i as int)),
            text::views(seen@) == normals(tagged_views(out@)),
        decreases hits@.len() - i,
    {
        let ghost all = before + more.take(i + 1);
        assert(all.drop_last() =~= before + more.take(i as int));
        assert(all.last() == more[i as int]);
        let norm = address::normalize_url(hits[i].url.as_str());
        if !text::listed(&*seen, norm.as_str()) {
            let ghost o = tagged_views(out@);
            let ghost n = text::views(seen@);
            out.push(Tagged { hit: hits[i].clone(), from_ddg });
            seen.push(norm);
            assert(tagged_views(out@) =~= o.push(more[i as int]));
            assert(text::views(seen@) =~= n.push(norm@));
            assert(normals(tagged_views(out@)) =~= n.push(norm@));
        }
        i += 1;
    }
    assert(more.take(i as int) =~= more);
}

/// The hits of both engines, DuckDuckGo's first, each page only where it comes first.
pub fn merge_hits(ddg: &[SearchHit], bing: &[SearchHit]) -> (r: Vec<Tagged>)
    ensures
        tagged_views(r@) == merged(tagged(hit_views(ddg@), hit_views(bing@))),
{
    let mut out: Vec<Tagged> = Vec::new();
    let mut seen: Vec<String> = Vec::new();
    let ghost none: Seq<(HitView, bool)> = seq![];
    assert(tagged_views(out@) =~= merged(none));
    assert(text::views(seen@) =~= normals(merged(none)));
    merge_into(&mut out, &mut seen, ddg, true, Ghost(none));
    let ghost first = Seq::new(ddg@.len(), |i: int| (ddg@[i]@, true));
    assert(none + first =~= first);
    merge_into(&mut out, &mut seen, bing, false, Ghost(first));
    assert(first + Seq::new(bing@.len(), |i: int| (bing@[i]@, false)) =~= tagged(
        hit_views(ddg@),
        hit_views(bing@),
    ));
    out
}

// ── Filtering ───────────────────────────────────────────────────────────────

/// A site without the scheme that may stand before it.
pub open spec fn without_scheme(site: Seq<char>) -> Seq<char> {
    let i = text::first_at(site, "://"@, 0);
    if i < site.len() {
        site.skip(i + 3)
    } else {
        site
    }
}

/// The host that a site names.
pub open spec fn site_host(site: Seq<char>) -> Seq<char> {
    let s = without_scheme(site);
    s.take(text::first_at(s, "/"@, 0))
}

/// The path that a site names behind its host, from its slash on; empty if it names none.
pub open spec fn site_path(site: Seq<char>) -> Seq<char> {
    let s = without_scheme(site);
    s.skip(text::first_at(s, "/"@, 0))
}

/// The host and the path that a site names.
pub fn split_site(site: &str) -> (r: (String, String))
    ensures
        r.0@ == site_host(site@),
        r.1@ == site_path(site@),
{
    proof {
        reveal_strlit("://");
        reveal_strlit("/");
    }
    let c = text::to_chars(site);
    let mark: usize = text::find_from(&c, &text::to_chars("://"), 0);
    let start: usize = if mark < c.len() {
        mark + 3
    } else {
        0
    };
    let bare = text::to_chars(text::from_chars(&c, start, c.len()).as_str());
    assert(bare@ =~= without_scheme(site@));
    let slash: usize = text::find_from(&bare, &text::to_chars("/"), 0);
    assert(bare@.subrange(0, slash as int) =~= bare@.take(slash as int));
    assert(bare@.subrange(slash as int, bare@.len() as int) =~= bare@.skip(slash as int));
    (text::from_chars(&bare, 0, slash), text::from_chars(&bare, slash, bare.len()))
}

/// A page is of a site: its host is the one that the site names, or a part of it, and its path
/// begins with the one that the site names.
pub open spec fn of_site(place: Option<(Seq<char>, Seq<char>)>, site: Seq<char>) -> bool {
    match place {
        Some((h, p)) => {
            &&& h == site_host(site) || text::ends_with(h, "."@ + site_host(site))
            &&& text::starts_with(p, site_path(site))
        },
        None => false,
    }
}

/// The host and the path of a page, if it has a host.
pub open spec fn place_view(place: Option<(String, String)>) -> Option<(Seq<char>, Seq<char>)> {
    match place {
        Some((h, p)) => Some((h@, p@)),
        None => None,
    }
}

/// Whether a page is of a site, by the page's host and path in lower case.
pub fn is_of_site(place: &Option<(String, String)>, site: &str) -> (r: bool)
    ensures
        r == of_site(place_view(*place), site@),
{
    match place {
        Some((h, p)) => {
            let (host, path) = split_site(site);
            let mut part = ".".to_owned();
            part.append(host.as_str());
            (text::same(h.as_str(), host.as_str()) || text::has_suffix(h.as_str(), part.as_str()))
                && text::has_prefix(p.as_str(), path.as_str())
        },
        None => false,
    }
}

/// A page is of one of the sites.
pub open spec fn of_any(place: Option<(Seq<char>, Seq<char>)>, sites: Seq<Seq<char>>) -> bool {
    exists|k: int| 0 <= k < sites.len() && of_site(place, #[trigger] sites[k])
}

/// Whether a page is of one of the sites, by the page's host and path in lower case.
pub fn is_of_any(place: &Option<(String, String)>, sites: &[String]) -> (r: bool)
    ensures
        r == of_any(place_view(*place), text::views(sites@)),
{
    let ghost s = text::views(sites@);
    let mut k: usize = 0;
    while k < sites.len()
        invariant
            k <= sites@.len(),
            s == text::views(sites@),
            forall|j: int| 0 <= j < k ==> !of_site(place_view(*place), #[trigger] s[j]),
        decreases sites@.len() - k,
    {
        assert(s[k as int] == sites@[k as int]@);
        if is_of_site(place, sites[k].as_str()) {
            return true;
        }
        k += 1;
    }
    false
}

/// The host and the path of an address in lower case, if it is a URL with a host.
pub open spec fn place_of(addr: Seq<char>) -> Option<(Seq<char>, Seq<char>)> {
    match (url::url_parse(addr), url::url_path(addr)) {
        (Ok((_, _, Some(h))), Some(p)) => Some((unicode::lowercase(h), unicode::lowercase(p))),
        _ => None,
    }
}

/// The host and the path of an address in lower case.
fn find_place(addr: &str) -> (r: Option<(String, String)>)
    ensures
        place_view(r) == place_of(addr@),
{
    match (url::parse(addr), url::path(addr)) {
        (Ok(u), Some(p)) => match u.host {
            Some(h) => Some(
                (unicode::to_lowercase(h.as_str()), unicode::to_lowercase(p.as_str())),
            ),
            None => None,
        },
        _ => None,
    }
}

/// A hit with the address is wanted: it is of the site, if one is given, and of none of the
/// excluded ones. Sites are given trimmed and in lower case.
pub open spec fn wanted(addr: Seq<char>, site: Seq<char>, excluded: Seq<Seq<char>>) -> bool {
    &&& site.len() > 0 ==> of_site(place_of(addr), site)
    &&& !of_any(place_of(addr), excluded)
}

/// Whether a hit with the address is wanted.
fn is_wanted(addr: &str, site: &str, excluded: &[String]) -> (r: bool)
    ensures
        r == wanted(addr@, site@, text::views(excluded@)),
{
    let place = find_place(addr);
    (site.is_empty() || is_of_site(&place, site)) && !is_of_any(&place, excluded)
}

/// The wanted ones of the hits.
pub open spec fn filtered(
    hits: Seq<(HitView, bool)>,
    site: Seq<char>,
    excluded: Seq<Seq<char>>,
) -> Seq<(HitView, bool)>
    decreases hits.len(),
{
    if hits.len() == 0 {
        hits
    } else {
        let rest = filtered(hits.drop_last(), site, excluded);
        if wanted(hits.last().0.url, site, excluded) {
            rest.push(hits.last())
        } else {
            rest
        }
    }
}

/// A copy of a tagged hit.
fn copy_tagged(t: &Tagged) -> (r: Tagged)
    ensures
        (r.hit@, r.from_ddg) == (t.hit@, t.from_ddg),
{
    Tagged { hit: t.hit.clone(), from_ddg: t.from_ddg }
}

/// The wanted ones of the hits. The site, empty if there is none, and the excluded sites are
/// given trimmed and in lower case.
pub fn filter_hits(hits: &[Tagged], site: &str, excluded: &[String]) -> (r: Vec<Tagged>)
    ensures
        tagged_views(r@) == filtered(tagged_views(hits@), site@, text::views(excluded@)),
{
    let ghost h = tagged_views(hits@);
    let mut r: Vec<Tagged> = Vec::new();
    let mut i: usize = 0;
    assert(tagged_views(r@) =~= h.take(0));
    while i < hits.len()
        invariant
            i <= hits@.len(),
            h == tagged_views(hits@),
            tagged_views(r@) == filtered(h.take(i as int), site@, text::views(excluded@)),
        decreases hits@.len() - i,
    {
        assert(h.take(i + 1).drop_last() =~= h.take(i as int));
        assert(h.take(i + 1).last() == h[i as int]);
        if is_wanted(hits[i].hit.url.as_str(), site, excluded) {
            let ghost before = tagged_views(r@);
            r.push(copy_tagged(&hits[i]));
            assert(tagged_views(r@) =~= before.push(h[i as int]));
        }
        i += 1;
    }
    assert(h.take(i as int) =~= h);
    r
}

/// A site trimmed and in lower case, empty if there is none.
pub open spec fn tidy_site(site: Option<Seq<char>>) -> Seq<char> {
    match site {
        Some(s) => unicode::lowercase(text::trimmed(s)),
        None => seq![],
    }
}

/// The sites of a list, trimmed and in lower case, without the empty ones.
pub open spec fn tidy_sites(sites: Seq<Seq<char>>) -> Seq<Seq<char>>
    decreases sites.len(),
{
    if sites.len() == 0 {
        seq![]
    } else {
        let s = unicode::lowercase(text::trimmed(sites.last()));
        if s.len() > 0 {
            tidy_sites(sites.drop_last()).push(s)
        } else {
            tidy_sites(sites.drop_last())
        }
    }
}

/// The sites of a list, trimmed and in lower case, without the empty ones.
fn tidy_list(sites: &[String]) -> (r: Vec<String>)
    ensures
        text::views(r@) == tidy_sites(text::views(sites@)),
{
    let ghost all = text::views(sites@);
    let mut r: Vec<String> = Vec::new();
    let mut i: usize = 0;
    assert(text::views(r@) =~= tidy_sites(all.take(0)));
    while i < sites.len()
        invariant
            i <= sites@.len(),
            all == text::views(sites@),
            text::views(r@) == tidy_sites(all.take(i as int)),
        decreases sites@.len() - i,
    {
        assert(all.take(i + 1).drop_last() =~= all.take(i as int));
        assert(all.take(i + 1).last() == sites@[i as int]@);
        let s = unicode::to_lowercase(text::trim(sites[i].as_str()).as_str());
        if !s.as_str().is_empty() {
            let ghost before = text::views(r@);
            r.push(s);
            assert(text::views(r@) =~= before.push(s@));
        }
        i += 1;
    }
    assert(all.take(i as int) =~= all);
    r
}

// ── Ranking ─────────────────────────────────────────────────────────────────

/// Twice the points that a hit gets for the terms: two for each that its title holds, one for
/// each that its address holds and one for each that its summary holds, all given in lower
/// case; and half a point if it is DuckDuckGo's.
pub open spec fn points_of(
    title: Seq<char>,
    addr: Seq<char>,
    snippet: Seq<char>,
    terms: Seq<Seq<char>>,
    from_ddg: bool,
) -> nat
    decreases terms.len(),
{
    if terms.len() == 0 {
        if from_ddg {
            1
        } else {
            0
        }
    } else {
        let t = terms.last();
        points_of(title, addr, snippet, terms.drop_last(), from_ddg) + (if text::contains(
            title,
            t,
        ) {
            4nat
        } else {
            0
        }) + (if text::contains(addr, t) {
            2nat
        } else {
            0
        }) + (if text::contains(snippet, t) {
            2nat
        } else {
            0
        })
    }
}

/// Twice the points that a hit gets for the terms.
pub fn points(title: &str, addr: &str, snippet: &str, terms: &[String], from_ddg: bool) -> (r: u128)
    ensures
        r == points_of(title@, addr@, snippet@, text::views(terms@), from_ddg),
{
    let ghost t = text::views(terms@);
    let count: usize = terms.len();
    let mut n: u128 = if from_ddg {
        1
    } else {
        0
    };
    let mut k: usize = 0;
    while k < count
        invariant
            k <= count,
            count == terms@.len(),
            t == text::views(terms@),
            n <= 8 * k + 1,
            n == points_of(title@, addr@, snippet@, t.take(k as int), from_ddg),
        decreases count - k,
    {
        assert(t.take(k + 1).drop_last() =~= t.take(k as int));
        assert(t.take(k + 1).last() == terms@[k as int]@);
        let term = terms[k].as_str();
        if text::has(title, term) {
            n += 4;
        }
        if text::has(addr, term) {
            n += 2;
        }
        if text::has(snippet, term) {
            n += 2;
        }
        k += 1;
    }
    assert(t.take(k as int) =~= t);
    n
}

/// The points of a hit.
pub open spec fn hit_points(h: (HitView, bool), terms: Seq<Seq<char>>) -> nat {
    points_of(
        unicode::lowercase(h.0.title),
        unicode::lowercase(h.0.url),
        unicode::lowercase(h.0.snippet),
        terms,
        h.1,
    )
}

/// The points of each of the hits.
pub open spec fn all_points(hits: Seq<(HitView, bool)>, terms: Seq<Seq<char>>) -> Seq<nat> {
    Seq::new(hits.len(), |i: int| hit_points(hits[i], terms))
}

/// The hits best first, equal ones in order; as they are where there is no term.
pub open spec fn ranked(hits: Seq<(HitView, bool)>, terms: Seq<Seq<char>>) -> Seq<(HitView, bool)> {
    if terms.len() == 0 {
        hits
    } else {
        let best = order::ranking(all_points(hits, terms));
        Seq::new(best.len(), |k: int| hits[best[k]])
    }
}

/// The hits without their tags.
pub open spec fn untagged(hits: Seq<(HitView, bool)>) -> Seq<HitView> {
    Seq::new(hits.len(), |i: int| hits[i].0)
}

/// The first `max` of the hits, best first.
pub fn rank_hits(hits: &[Tagged], terms: &[String], max: usize) -> (r: Vec<SearchHit>)
    ensures
        hit_views(r@) == text::first(
            untagged(ranked(tagged_views(hits@), text::views(terms@))),
            max as int,
        ),
{
    let ghost h = tagged_views(hits@);
    let ghost t = text::views(terms@);
    let mut order: Vec<usize> = Vec::new();
    let mut scores: Vec<u128> = Vec::new();
    let mut i: usize = 0;
    assert(t.len() == terms@.len());
    while i < hits.len()
        invariant
            i <= hits@.len(),
            h == tagged_views(hits@),
            t == text::views(terms@),
            order@.len() == i,
            forall|k: int| 0 <= k < i ==> #[trigger] order@[k] == k,
            scores@.len() == i,
            order::nats(scores@) == all_points(h, t).take(i as int),
        decreases hits@.len() - i,
    {
        let x = &hits[i];
        let n = points(
            unicode::to_lowercase(x.hit.title.as_str()).as_str(),
            unicode::to_lowercase(x.hit.url.as_str()).as_str(),
            unicode::to_lowercase(x.hit.snippet.as_str()).as_str(),
            terms,
            x.from_ddg,
        );
        let ghost before = order::nats(scores@);
        assert(h[i as int] == (x.hit@, x.from_ddg));
        scores.push(n);
        assert(order::nats(scores@) =~= before.push(n as nat));
        assert(before.push(n as nat) =~= all_points(h, t).take(i + 1));
        order.push(i);
        i += 1;
    }
    assert(all_points(h, t).take(i as int) =~= all_points(h, t));
    if terms.len() > 0 {
        order = order::rank_positions(&scores);
        assert(order::ints(order@).len() == order@.len());
    }
    let ghost list = untagged(ranked(h, t));
    proof {
        assert(order::ints(order@).len() == order@.len());
        assert(list.len() == order@.len());
        assert forall|k: int| 0 <= k < list.len() implies #[trigger] list[k]
            == h[order@[k] as int].0 by {
            if terms@.len() > 0 {
                assert(order::ints(order@)[k] == order@[k] as int);
            }
        }
    }
    let mut r: Vec<SearchHit> = Vec::new();
    let mut k: usize = 0;
    while k < order.len() && k < max
        invariant
            k <= order@.len(),
            k <= max,
            h == tagged_views(hits@),
            list.len() == order@.len(),
            order@.len() == hits@.len(),
            forall|j: int| 0 <= j < order@.len() ==> #[trigger] order@[j] < hits@.len(),
            forall|j: int| 0 <= j < list.len() ==> #[trigger] list[j] == h[order@[j] as int].0,
            hit_views(r@) == list.take(k as int),
        decreases order@.len() - k,
    {
        let ghost before = hit_views(r@);
        r.push(hits[order[k]].hit.clone());
        assert(hit_views(r@) =~= before.push(list[k as int]));
        k += 1;
    }
    r
}

// ── The whole search ────────────────────────────────────────────────────────

/// `n` between one and twenty.
pub open spec fn answerable(n: int) -> int {
    if n < 1 {
        1
    } else if n > 20 {
        20
    } else {
        n
    }
}

/// The hits of a page, none where there is no page.
pub open spec fn ddg_optional(page: Option<Seq<char>>) -> Seq<HitView> {
    match page {
        Some(p) => ddg_page(p),
        None => seq![],
    }
}

/// The hits of a page, none where there is no page.
pub open spec fn bing_optional(page: Option<Seq<char>>) -> Seq<HitView> {
    match page {
        Some(p) => bing_page(p),
        None => seq![],
    }
}

/// The wanted hits of both engines, each page once.
pub open spec fn candidates(
    ddg: Seq<HitView>,
    bing: Seq<HitView>,
    site: Option<Seq<char>>,
    excluded: Seq<Seq<char>>,
) -> Seq<(HitView, bool)> {
    filtered(merged(tagged(ddg, bing)), tidy_site(site), tidy_sites(excluded))
}

/// The answer of a search, given the hits of both engines.
pub open spec fn answer_of(
    ddg: Seq<HitView>,
    bing: Seq<HitView>,
    query: Seq<char>,
    max: int,
    site: Option<Seq<char>>,
    excluded: Seq<Seq<char>>,
) -> Seq<HitView> {
    text::first(
        untagged(ranked(candidates(ddg, bing, site, excluded), focus::terms_of(query))),
        answerable(max),
    )
}

/// The hits of both engines merged, filtered and ranked.
pub fn search_hits(
    ddg_html: Option<&str>,
    bing_html: Option<&str>,
    query: &str,
    max_results: usize,
    site: Option<&str>,
    excluded: &[String],
) -> (r: Vec<SearchHit>)
    ensures
        hit_views(r@) == answer_of(
            ddg_optional(opt_str(ddg_html)),
            bing_optional(opt_str(bing_html)),
            query@,
            max_results as int,
            opt_str(site),
            text::views(excluded@),
        ),
{
    let max: usize = if max_results < 1 {
        1
    } else if max_results > 20 {
        20
    } else {
        max_results
    };
    let ddg = match ddg_html {
        Some(p) => ddg_hits(p),
        None => Vec::new(),
    };
    let bing = match bing_html {
        Some(p) => bing_hits(p),
        None => Vec::new(),
    };
    assert(hit_views(Seq::<SearchHit>::empty()) =~= Seq::empty());
    let all = merge_hits(&ddg, &bing);
    let site_word = match site {
        Some(s) => unicode::to_lowercase(text::trim(s).as_str()),
        None => String::new(),
    };
    assert(site_word@ =~= tidy_site(opt_str(site)));
    let some = filter_hits(&all, site_word.as_str(), &tidy_list(excluded));
    rank_hits(&some, &focus::focus_terms(query), max)
}

// ── Laws ────────────────────────────────────────────────────────────────────

/// No page comes twice.
pub open spec fn pages_differ(hits: Seq<(HitView, bool)>) -> bool {
    normals(hits).no_duplicates()
}

proof fn lemma_merged(hits: Seq<(HitView, bool)>)
    ensures
        pages_differ(merged(hits)),
        forall|i: int|
            0 <= i < merged(hits).len() ==> hits.contains(#[trigger] merged(hits)[i]),
    decreases hits.len(),
{
    if hits.len() > 0 {
        let rest = merged(hits.drop_last());
        let all = merged(hits);
        let norm = address::normal(hits.last().0.url);
        lemma_merged(hits.drop_last());
        if !normals(rest).contains(norm) {
            assert(normals(all) =~= normals(rest).push(norm));
        }
        assert forall|i: int| 0 <= i < all.len() implies hits.contains(#[trigger] all[i]) by {
            if i < rest.len() {
                assert(all[i] == rest[i]);
                let k = hits.drop_last().index_of(rest[i]);
                assert(hits[k] == rest[i]);
            } else {
                assert(hits[hits.len() - 1] == all[i]);
            }
        }
    }
}

proof fn lemma_filtered(hits: Seq<(HitView, bool)>, site: Seq<char>, excluded: Seq<Seq<char>>)
    requires
        pages_differ(hits),
    ensures
        pages_differ(filtered(hits, site, excluded)),
        forall|i: int|
            0 <= i < filtered(hits, site, excluded).len() ==> {
                &&& hits.contains(#[trigger] filtered(hits, site, excluded)[i])
                &&& wanted(filtered(hits, site, excluded)[i].0.url, site, excluded)
            },
    decreases hits.len(),
{
    if hits.len() > 0 {
        let less = hits.drop_last();
        let rest = filtered(less, site, excluded);
        let all = filtered(hits, site, excluded);
        assert(normals(less) =~= normals(hits).drop_last());
        assert(pages_differ(less)) by {
            assert forall|i: int, j: int|
                0 <= i < normals(less).len() && 0 <= j < normals(less).len() && i
                    != j implies normals(less)[i] != normals(less)[j] by {
                assert(normals(less)[i] == normals(hits)[i]);
                assert(normals(less)[j] == normals(hits)[j]);
            }
        }
        lemma_filtered(less, site, excluded);
        let norm = address::normal(hits.last().0.url);
        if wanted(hits.last().0.url, site, excluded) {
            assert(normals(all) =~= normals(rest).push(norm));
            assert(!normals(rest).contains(norm)) by {
                if normals(rest).contains(norm) {
                    let k = normals(rest).index_of(norm);
                    let m = less.index_of(rest[k]);
                    assert(hits[m] == rest[k]);
                    assert(normals(hits)[m] == norm);
                    assert(normals(hits)[hits.len() - 1] == norm);
                }
            }
        }
        assert forall|i: int| 0 <= i < all.len() implies hits.contains(#[trigger] all[i]) && wanted(
            all[i].0.url,
            site,
            excluded,
        ) by {
            if i < rest.len() {
                assert(all[i] == rest[i]);
                let k = less.index_of(rest[i]);
                assert(hits[k] == rest[i]);
            } else {
                assert(hits[hits.len() - 1] == all[i]);
            }
        }
    }
}

proof fn lemma_ranked(hits: Seq<(HitView, bool)>, terms: Seq<Seq<char>>)
    requires
        pages_differ(hits),
    ensures
        pages_differ(ranked(hits, terms)),
        ranked(hits, terms).len() == hits.len(),
        forall|i: int|
            0 <= i < ranked(hits, terms).len() ==> hits.contains(
                #[trigger] ranked(hits, terms)[i],
            ),
{
    let all = ranked(hits, terms);
    if terms.len() > 0 {
        let p = all_points(hits, terms);
        let best = order::ranking(p);
        order::ranking_is_best_first(p, p.len() as int);
        assert forall|i: int, j: int|
            0 <= i < normals(all).len() && 0 <= j < normals(all).len() && i != j implies normals(
            all,
        )[i] != normals(all)[j] by {
            assert(normals(all)[i] == normals(hits)[best[i]]);
            assert(normals(all)[j] == normals(hits)[best[j]]);
            if i < j {
                assert(order::ahead(p, best[i], best[j]));
            } else {
                assert(order::ahead(p, best[j], best[i]));
            }
        }
        assert forall|i: int| 0 <= i < all.len() implies hits.contains(#[trigger] all[i]) by {
            assert(all[i] == hits[best[i]]);
        }
    } else {
        assert forall|i: int| 0 <= i < all.len() implies hits.contains(#[trigger] all[i]) by {
            assert(hits[i] == all[i]);
        }
    }
}

/// Every hit leads to the web and has a title.
pub open spec fn proper(hits: Seq<HitView>) -> bool {
    forall|i: int|
        0 <= i < hits.len() ==> text::starts_with((#[trigger] hits[i]).url, "http"@)
            && hits[i].title.len() > 0
}

proof fn lemma_ddg_results(
    headings: Seq<Option<(Option<Seq<char>>, Seq<Seq<char>>)>>,
    summaries: Seq<Option<(Option<Seq<char>>, Seq<Seq<char>>)>>,
    n: int,
)
    ensures
        proper(ddg_results(headings, summaries, n)),
    decreases n,
{
    if n > 0 {
        lemma_ddg_results(headings, summaries, n - 1);
    }
}

proof fn lemma_ddg_links(links: Seq<(Option<Seq<char>>, Seq<Seq<char>>)>)
    ensures
        proper(ddg_links(links)),
    decreases links.len(),
{
    if links.len() > 0 {
        lemma_ddg_links(links.drop_last());
        if label_of(links.last().1).len() == 0 {
            assert(label_of(links.last().1) =~= Seq::<char>::empty());
        }
    }
}

proof fn lemma_bing_links(links: Seq<(Option<Seq<char>>, Seq<Seq<char>>)>, strict: bool)
    ensures
        proper(bing_links(links, strict)),
    decreases links.len(),
{
    if links.len() > 0 {
        lemma_bing_links(links.drop_last(), strict);
    }
}

/// Whatever the engines answer, every hit that is read from their pages leads to the web and
/// has a title.
pub proof fn engine_hits_are_proper(page: Seq<char>)
    ensures
        proper(ddg_page(page)),
        proper(bing_page(page)),
{
    let headings = html::css_select_first_within(page, ".result"@, "h2.result__title a"@, "href"@);
    let summaries = html::css_select_first_within(page, ".result"@, ".result__snippet"@, "href"@);
    lemma_ddg_results(headings, summaries, headings.len() as int);
    lemma_ddg_links(html::css_select(page, "a[href]"@, "href"@));
    lemma_bing_links(html::css_select(page, "li.b_algo h2 a"@, "href"@), false);
    lemma_bing_links(html::css_select(page, "h2 a[href]"@, "href"@), true);
}

/// What is merged came first of its page, and no page is lost.
proof fn lemma_merged_first(hits: Seq<(HitView, bool)>)
    ensures
        forall|i: int|
            0 <= i < merged(hits).len() ==> comes_first(hits, #[trigger] merged(hits)[i]),
        forall|n: int|
            0 <= n < hits.len() ==> normals(merged(hits)).contains(
                #[trigger] normals(hits)[n],
            ),
    decreases hits.len(),
{
    if hits.len() > 0 {
        let less = hits.drop_last();
        let rest = merged(less);
        let all = merged(hits);
        let last = hits.len() - 1;
        let norm = address::normal(hits.last().0.url);
        lemma_merged_first(less);
        assert forall|i: int| 0 <= i < all.len() implies comes_first(
            hits,
            #[trigger] all[i],
        ) by {
            if i < rest.len() {
                assert(rest[i] == all[i]);
                assert(comes_first(less, rest[i]));
                let n = choose|n: int| #[trigger] first_of_page(less, n) && less[n] == rest[i];
                assert forall|m: int| 0 <= m < n implies address::normal(
                    (#[trigger] hits[m]).0.url,
                ) != address::normal(hits[n].0.url) by {
                    assert(hits[m] == less[m]);
                }
                assert(first_of_page(hits, n) && hits[n] == all[i]);
            } else {
                assert forall|m: int| 0 <= m < last implies address::normal(
                    (#[trigger] hits[m]).0.url,
                ) != norm by {
                    assert(normals(less)[m] == address::normal(hits[m].0.url));
                    assert(normals(rest).contains(normals(less)[m]));
                }
                assert(first_of_page(hits, last) && hits[last] == all[i]);
            }
        }
        assert forall|n: int| 0 <= n < hits.len() implies normals(all).contains(
            #[trigger] normals(hits)[n],
        ) by {
            if n < last {
                assert(normals(less)[n] == normals(hits)[n]);
                let k = normals(rest).index_of(normals(hits)[n]);
                assert(normals(all)[k] == normals(rest)[k]);
            } else if !normals(rest).contains(norm) {
                assert(normals(all)[rest.len() as int] == norm);
            }
        }
    }
}

/// The hit at `n` is the first one of its page.
pub open spec fn first_of_page(hits: Seq<(HitView, bool)>, n: int) -> bool {
    &&& 0 <= n < hits.len()
    &&& forall|m: int|
        0 <= m < n ==> address::normal((#[trigger] hits[m]).0.url) != address::normal(
            hits[n].0.url,
        )
}

/// The hit is one that is the first one of its page.
pub open spec fn comes_first(hits: Seq<(HitView, bool)>, h: (HitView, bool)) -> bool {
    exists|n: int| #[trigger] first_of_page(hits, n) && hits[n] == h
}

/// Of a page that both engines found, DuckDuckGo's hit is kept, and merging loses no page.
pub proof fn duckduckgo_goes_before(ddg: Seq<HitView>, bing: Seq<HitView>, i: int, k: int)
    requires
        0 <= i < merged(tagged(ddg, bing)).len(),
        0 <= k < ddg.len(),
        address::normal(ddg[k].url) == address::normal(merged(tagged(ddg, bing))[i].0.url),
    ensures
        merged(tagged(ddg, bing))[i].1,
        ddg.contains(merged(tagged(ddg, bing))[i].0),
{
    let all = tagged(ddg, bing);
    lemma_merged_first(all);
    assert(comes_first(all, merged(all)[i]));
    let n = choose|n: int| #[trigger] first_of_page(all, n) && all[n] == merged(all)[i];
    if n >= ddg.len() {
        assert(all[k] == (ddg[k], true));
    } else {
        assert(ddg[n] == merged(all)[i].0);
    }
}

/// Every page that an engine found is among the merged hits.
pub proof fn merging_loses_no_page(ddg: Seq<HitView>, bing: Seq<HitView>, h: HitView)
    requires
        ddg.contains(h) || bing.contains(h),
    ensures
        normals(merged(tagged(ddg, bing))).contains(address::normal(h.url)),
{
    let all = tagged(ddg, bing);
    lemma_merged_first(all);
    let n = if ddg.contains(h) {
        ddg.index_of(h)
    } else {
        ddg.len() + bing.index_of(h)
    };
    assert(all[n].0 == h);
    assert(normals(all)[n] == address::normal(h.url));
}

/// A search answers with at most as many hits as asked for and never more than twenty. No two
/// of them are the same page; each is of the site asked for and of none of the excluded ones;
/// and each is one that an engine gave, DuckDuckGo's where both gave the page.
pub proof fn answers_are_distinct_and_wanted(
    ddg: Seq<HitView>,
    bing: Seq<HitView>,
    query: Seq<char>,
    max: int,
    site: Option<Seq<char>>,
    excluded: Seq<Seq<char>>,
)
    ensures
        ({
            let a = answer_of(ddg, bing, query, max, site, excluded);
            &&& a.len() <= answerable(max)
            &&& a.len() <= 20
            &&& forall|i: int|
                0 <= i < a.len() ==> {
                    &&& wanted((#[trigger] a[i]).url, tidy_site(site), tidy_sites(excluded))
                    &&& ddg.contains(a[i]) || bing.contains(a[i])
                }
            &&& forall|i: int, k: int|
                0 <= i < a.len() && 0 <= k < ddg.len() && address::normal(
                    (#[trigger] ddg[k]).url,
                ) == address::normal((#[trigger] a[i]).url) ==> ddg.contains(a[i])
            &&& forall|i: int, j: int|
                0 <= i < j < a.len() ==> address::normal((#[trigger] a[i]).url)
                    != address::normal((#[trigger] a[j]).url)
        }),
{
    let all = tagged(ddg, bing);
    let some = candidates(ddg, bing, site, excluded);
    let list = ranked(some, focus::terms_of(query));
    let a = answer_of(ddg, bing, query, max, site, excluded);
    lemma_merged(all);
    lemma_filtered(merged(all), tidy_site(site), tidy_sites(excluded));
    lemma_ranked(some, focus::terms_of(query));
    assert forall|i: int| 0 <= i < a.len() implies {
        &&& wanted((#[trigger] a[i]).url, tidy_site(site), tidy_sites(excluded))
        &&& ddg.contains(a[i]) || bing.contains(a[i])
    } by {
        assert(a[i] == list[i].0);
        let k = some.index_of(list[i]);
        assert(some[k] == list[i]);
        let m = merged(all).index_of(some[k]);
        assert(merged(all)[m] == some[k]);
        let n = all.index_of(merged(all)[m]);
        assert(all[n] == list[i]);
        if n < ddg.len() {
            assert(ddg[n] == a[i]);
        } else {
            assert(bing[n - ddg.len()] == a[i]);
        }
    }
    assert forall|i: int, k: int|
        0 <= i < a.len() && 0 <= k < ddg.len() && address::normal((#[trigger] ddg[k]).url)
            == address::normal((#[trigger] a[i]).url) implies ddg.contains(a[i]) by {
        assert(a[i] == list[i].0);
        let x = some.index_of(list[i]);
        assert(some[x] == list[i]);
        let m = merged(all).index_of(some[x]);
        assert(merged(all)[m] == some[x]);
        duckduckgo_goes_before(ddg, bing, m, k);
    }
    assert forall|i: int, j: int| 0 <= i < j < a.len() implies address::normal((#[trigger] a[i]).url)
        != address::normal((#[trigger] a[j]).url) by {
        assert(a[i] == list[i].0 && a[j] == list[j].0);
        assert(normals(list)[i] != normals(list)[j]);
    }
}

/// Where the query has a term, the hits come best first: none has fewer points than one behind
/// it.
pub proof fn answers_come_best_first(
    hits: Seq<(HitView, bool)>,
    terms: Seq<Seq<char>>,
    i: int,
    j: int,
)
    requires
        terms.len() > 0,
        0 <= i < j < ranked(hits, terms).len(),
    ensures
        hit_points(ranked(hits, terms)[i], terms) >= hit_points(ranked(hits, terms)[j], terms),
{
    let p = all_points(hits, terms);
    let best = order::ranking(p);
    order::ranking_is_best_first(p, p.len() as int);
    assert(order::ahead(p, best[i], best[j]));
    assert(p[best[i]] == hit_points(hits[best[i]], terms));
    assert(p[best[j]] == hit_points(hits[best[j]], terms));
}

// ── What a search must answer ───────────────────────────────────────────────

/// The positions of the hits that are merged.
spec fn firsts(hits: Seq<(HitView, bool)>) -> Seq<int>
    decreases hits.len(),
{
    if hits.len() == 0 {
        seq![]
    } else {
        let rest = firsts(hits.drop_last());
        if normals(merged(hits.drop_last())).contains(address::normal(hits.last().0.url)) {
            rest
        } else {
            rest.push(hits.len() - 1)
        }
    }
}

proof fn lemma_firsts(hits: Seq<(HitView, bool)>)
    ensures
        ({
            let at = firsts(hits);
            let m = merged(hits);
            &&& at.len() == m.len()
            &&& forall|k: int|
                0 <= k < at.len() ==> 0 <= #[trigger] at[k] < hits.len() && m[k] == hits[at[k]]
            &&& forall|k: int, x: int| 0 <= k < x < at.len() ==> #[trigger] at[k] < #[trigger] at[x]
            &&& forall|n: int| #[trigger] first_of_page(hits, n) <==> at.contains(n)
        }),
    decreases hits.len(),
{
    let at = firsts(hits);
    if hits.len() > 0 {
        let less = hits.drop_last();
        lemma_firsts(less);
        lemma_merged_first(less);
        let rest = firsts(less);
        let m = merged(less);
        assert forall|k: int| 0 <= k < rest.len() implies hits[#[trigger] rest[k]]
            == less[rest[k]] by {}
        assert forall|n: int| #[trigger] first_of_page(hits, n) <==> at.contains(n) by {
            if 0 <= n < less.len() {
                assert(first_of_page(hits, n) <==> first_of_page(less, n)) by {
                    assert forall|x: int| 0 <= x < n implies hits[x] == less[x] by {}
                    if first_of_page(less, n) {
                        assert forall|x: int| 0 <= x < n implies address::normal(
                            (#[trigger] hits[x]).0.url,
                        ) != address::normal(hits[n].0.url) by {
                            assert(hits[x] == less[x]);
                        }
                    }
                    if first_of_page(hits, n) {
                        assert forall|x: int| 0 <= x < n implies address::normal(
                            (#[trigger] less[x]).0.url,
                        ) != address::normal(less[n].0.url) by {
                            assert(hits[x] == less[x]);
                        }
                    }
                }
                if rest.contains(n) {
                    let k = rest.index_of(n);
                    assert(at[k] == n);
                }
                if at.contains(n) {
                    let k = at.index_of(n);
                    assert(rest[k] == n);
                }
            } else if n == less.len() {
                let norm = address::normal(hits[n].0.url);
                if normals(m).contains(norm) {
                    let k = normals(m).index_of(norm);
                    let x = rest[k];
                    assert(hits[x] == m[k]);
                    assert(!first_of_page(hits, n));
                    if at.contains(n) {
                        let y = at.index_of(n);
                        assert(rest[y] == n);
                    }
                } else {
                    assert(at.last() == n);
                    assert forall|x: int| 0 <= x < n implies address::normal(
                        (#[trigger] hits[x]).0.url,
                    ) != norm by {
                        assert(less[x] == hits[x]);
                        assert(normals(less)[x] == address::normal(hits[x].0.url));
                        assert(normals(m).contains(normals(less)[x]));
                    }
                    assert(first_of_page(hits, n));
                }
            } else if at.contains(n) {
                let k = at.index_of(n);
                assert(0 <= at[k] < hits.len());
            }
        }
    } else {
        assert forall|n: int| #[trigger] first_of_page(hits, n) <==> at.contains(n) by {}
    }
}

/// The positions of the hits that are wanted.
spec fn keepers(hits: Seq<(HitView, bool)>, site: Seq<char>, excluded: Seq<Seq<char>>) -> Seq<int>
    decreases hits.len(),
{
    if hits.len() == 0 {
        seq![]
    } else {
        let rest = keepers(hits.drop_last(), site, excluded);
        if wanted(hits.last().0.url, site, excluded) {
            rest.push(hits.len() - 1)
        } else {
            rest
        }
    }
}

proof fn lemma_keepers(hits: Seq<(HitView, bool)>, site: Seq<char>, excluded: Seq<Seq<char>>)
    ensures
        ({
            let at = keepers(hits, site, excluded);
            let f = filtered(hits, site, excluded);
            &&& at.len() == f.len()
            &&& forall|k: int|
                0 <= k < at.len() ==> 0 <= #[trigger] at[k] < hits.len() && f[k] == hits[at[k]]
                    && wanted(hits[at[k]].0.url, site, excluded)
            &&& forall|k: int, x: int| 0 <= k < x < at.len() ==> #[trigger] at[k] < #[trigger] at[x]
            &&& forall|n: int|
                0 <= n < hits.len() && wanted((#[trigger] hits[n]).0.url, site, excluded)
                    ==> at.contains(n)
        }),
    decreases hits.len(),
{
    if hits.len() > 0 {
        let less = hits.drop_last();
        lemma_keepers(less, site, excluded);
        let rest = keepers(less, site, excluded);
        let at = keepers(hits, site, excluded);
        assert forall|n: int|
            0 <= n < hits.len() && wanted((#[trigger] hits[n]).0.url, site, excluded) implies
            at.contains(n) by {
            if n < less.len() {
                assert(less[n] == hits[n]);
                let k = rest.index_of(n);
                assert(at[k] == n);
            } else {
                assert(at.last() == n);
            }
        }
    }
}

/// Filtering loses nothing: every hit that is wanted stays, in the order of the hits, and no other
/// does.
pub proof fn filtering_keeps_what_is_wanted(
    hits: Seq<(HitView, bool)>,
    site: Seq<char>,
    excluded: Seq<Seq<char>>,
) -> (at: Seq<int>)
    ensures
        ({
            let f = filtered(hits, site, excluded);
            &&& at.len() == f.len()
            &&& forall|k: int|
                0 <= k < at.len() ==> 0 <= #[trigger] at[k] < hits.len() && f[k] == hits[at[k]]
                    && wanted(hits[at[k]].0.url, site, excluded)
            &&& forall|k: int, x: int| 0 <= k < x < at.len() ==> #[trigger] at[k] < #[trigger] at[x]
            &&& forall|n: int|
                0 <= n < hits.len() && wanted((#[trigger] hits[n]).0.url, site, excluded)
                    ==> at.contains(n)
        }),
{
    lemma_keepers(hits, site, excluded);
    keepers(hits, site, excluded)
}

/// The candidates of a search are the wanted ones of the hits that the engines gave, DuckDuckGo's
/// before Bing's, in their order: each whose page no hit before it leads to, and no other.
pub proof fn candidates_are_the_wanted_pages(
    ddg: Seq<HitView>,
    bing: Seq<HitView>,
    site: Option<Seq<char>>,
    excluded: Seq<Seq<char>>,
) -> (at: Seq<int>)
    ensures
        ({
            let hits = ddg + bing;
            let c = candidates(ddg, bing, site, excluded);
            &&& at.len() == c.len()
            &&& forall|k: int|
                0 <= k < at.len() ==> 0 <= #[trigger] at[k] < hits.len() && c[k] == (
                    hits[at[k]],
                    at[k] < ddg.len(),
                ) && wanted(hits[at[k]].url, tidy_site(site), tidy_sites(excluded))
            &&& forall|k: int, x: int| 0 <= k < x < at.len() ==> #[trigger] at[k] < #[trigger] at[x]
            &&& forall|n: int|
                0 <= n < hits.len() && wanted(
                    (#[trigger] hits[n]).url,
                    tidy_site(site),
                    tidy_sites(excluded),
                ) && (forall|m: int|
                    0 <= m < n ==> address::normal((#[trigger] hits[m]).url) != address::normal(
                        hits[n].url,
                    )) ==> at.contains(n)
        }),
{
    let hits = ddg + bing;
    let all = tagged(ddg, bing);
    let m = merged(all);
    let ts = tidy_site(site);
    let te = tidy_sites(excluded);
    lemma_firsts(all);
    lemma_keepers(m, ts, te);
    let f = firsts(all);
    let w = keepers(m, ts, te);
    let at = Seq::new(w.len(), |k: int| f[w[k]]);
    assert forall|n: int| 0 <= n < hits.len() implies #[trigger] all[n] == (
        hits[n],
        n < ddg.len(),
    ) by {}
    assert forall|k: int| 0 <= k < at.len() implies 0 <= #[trigger] at[k] < hits.len() && candidates(
        ddg,
        bing,
        site,
        excluded,
    )[k] == (hits[at[k]], at[k] < ddg.len()) && wanted(hits[at[k]].url, ts, te) by {
        let x = w[k];
        assert(0 <= f[x] < all.len());
        assert(all[f[x]] == m[x]);
    }
    assert forall|k: int, x: int| 0 <= k < x < at.len() implies #[trigger] at[k] < #[trigger] at[x] by {
        let (a, b) = (w[k], w[x]);
        assert(f[a] < f[b]);
    }
    assert forall|n: int|
        0 <= n < hits.len() && wanted((#[trigger] hits[n]).url, ts, te) && (forall|y: int|
            0 <= y < n ==> address::normal((#[trigger] hits[y]).url) != address::normal(
                hits[n].url,
            )) implies at.contains(n) by {
        assert(first_of_page(all, n)) by {
            assert forall|y: int| 0 <= y < n implies address::normal((#[trigger] all[y]).0.url)
                != address::normal(all[n].0.url) by {
                assert(all[y].0 == hits[y]);
            }
        }
        let k = f.index_of(n);
        assert(m[k] == all[f[k]]);
        assert(w.contains(k));
        let x = w.index_of(k);
        assert(at[x] == n);
    }
    at
}

/// A search answers with as many of its candidates as asked for, one to twenty, or with all of
/// them where there are fewer. Where the query has a term, those with the most points come first,
/// equal ones in their order, and none that is left out has more than one that is not; without a
/// term they come in their order.
pub proof fn answers_are_the_best_candidates(
    ddg: Seq<HitView>,
    bing: Seq<HitView>,
    query: Seq<char>,
    max: int,
    site: Option<Seq<char>>,
    excluded: Seq<Seq<char>>,
) -> (at: Seq<int>)
    ensures
        ({
            let c = candidates(ddg, bing, site, excluded);
            let a = answer_of(ddg, bing, query, max, site, excluded);
            let terms = focus::terms_of(query);
            let most = if max < 1 {
                1
            } else if max > 20 {
                20
            } else {
                max
            };
            &&& a.len() == at.len() == if c.len() < most {
                c.len() as int
            } else {
                most
            }
            &&& forall|k: int|
                0 <= k < at.len() ==> 0 <= #[trigger] at[k] < c.len() && a[k] == c[at[k]].0
            &&& at.no_duplicates()
            &&& terms.len() == 0 ==> forall|k: int| 0 <= k < at.len() ==> #[trigger] at[k] == k
            &&& terms.len() > 0 ==> forall|k: int, m: int|
                0 <= k < m < at.len() ==> hit_points(c[#[trigger] at[k]], terms) > hit_points(
                    c[#[trigger] at[m]],
                    terms,
                ) || (hit_points(c[at[k]], terms) == hit_points(c[at[m]], terms) && at[k] < at[m])
            &&& terms.len() > 0 ==> forall|k: int, i: int|
                0 <= k < at.len() && 0 <= i < c.len() && !at.contains(i) ==> hit_points(
                    c[#[trigger] at[k]],
                    terms,
                ) > hit_points(#[trigger] c[i], terms) || (hit_points(c[at[k]], terms)
                    == hit_points(c[i], terms) && at[k] < i)
        }),
{
    let c = candidates(ddg, bing, site, excluded);
    let a = answer_of(ddg, bing, query, max, site, excluded);
    let terms = focus::terms_of(query);
    let most = answerable(max);
    let order = ranked(c, terms);
    text::first_items_are_the_beginning(untagged(order), most);
    if terms.len() == 0 {
        let at = Seq::new(a.len(), |k: int| k);
        assert forall|k: int| 0 <= k < at.len() implies 0 <= #[trigger] at[k] < c.len() && a[k]
            == c[at[k]].0 by {}
        at
    } else {
        let scores = all_points(c, terms);
        let best = order::ranking(scores);
        order::ranking_is_best_first(scores, scores.len() as int);
        let at = best.take(a.len() as int);
        assert forall|k: int| 0 <= k < at.len() implies 0 <= #[trigger] at[k] < c.len() && a[k]
            == c[at[k]].0 && at[k] == best[k] by {
            assert(best[k] == at[k]);
            assert(order[k] == c[best[k]]);
        }
        assert forall|k: int, m: int| 0 <= k < m < at.len() implies hit_points(
            c[#[trigger] at[k]],
            terms,
        ) > hit_points(c[#[trigger] at[m]], terms) || (hit_points(c[at[k]], terms) == hit_points(
            c[at[m]],
            terms,
        ) && at[k] < at[m]) by {
            assert(order::ahead(scores, best[k], best[m]));
            assert(scores[best[k]] == hit_points(c[best[k]], terms));
            assert(scores[best[m]] == hit_points(c[best[m]], terms));
        }
        assert(at.no_duplicates()) by {
            assert forall|k: int, m: int| 0 <= k < m < at.len() implies #[trigger] at[k]
                != #[trigger] at[m] by {
                assert(order::ahead(scores, best[k], best[m]));
            }
        }
        assert forall|k: int, i: int|
            0 <= k < at.len() && 0 <= i < c.len() && !at.contains(i) implies hit_points(
            c[#[trigger] at[k]],
            terms,
        ) > hit_points(#[trigger] c[i], terms) || (hit_points(c[at[k]], terms) == hit_points(
            c[i],
            terms,
        ) && at[k] < i) by {
            assert(best.contains(i));
            let z = best.index_of(i);
            if z < at.len() {
                assert(at[z] == i);
            }
            assert(order::ahead(scores, best[k], best[z]));
            assert(scores[best[k]] == hit_points(c[best[k]], terms));
            assert(scores[i] == hit_points(c[i], terms));
        }
        at
    }
}

/// Each term brings a hit four points if its title holds it, two if its address does and two if
/// its summary does; and that DuckDuckGo found it, one.
pub proof fn terms_bring_points(
    h: (HitView, bool),
    terms: Seq<Seq<char>>,
    term: Seq<char>,
)
    ensures
        ({
            let less = hit_points(h, terms);
            let more = hit_points(h, terms.push(term));
            let t = text::contains(unicode::lowercase(h.0.title), term);
            let a = text::contains(unicode::lowercase(h.0.url), term);
            let s = text::contains(unicode::lowercase(h.0.snippet), term);
            &&& !t && !a && !s ==> more == less
            &&& t && !a && !s ==> more == less + 4
            &&& !t && a && !s ==> more == less + 2
            &&& !t && !a && s ==> more == less + 2
            &&& t && a && !s ==> more == less + 6
            &&& t && !a && s ==> more == less + 6
            &&& !t && a && s ==> more == less + 4
            &&& t && a && s ==> more == less + 8
            &&& hit_points((h.0, true), Seq::empty()) == 1
            &&& hit_points((h.0, false), Seq::empty()) == 0
        }),
{
    assert(terms.push(term).drop_last() =~= terms);
}

/// Where neither a site is asked for nor one is excluded, every hit is wanted. Otherwise it is if
/// its page is of the site and of none of the excluded ones, by its host and its path in lower
/// case; and one without a host is of no site.
pub proof fn hits_are_wanted_by_host_and_path(
    addr: Seq<char>,
    site: Seq<char>,
    excluded: Seq<Seq<char>>,
    host: Seq<char>,
    path: Seq<char>,
)
    ensures
        wanted(addr, Seq::empty(), Seq::empty()),
        (url::url_parse(addr) matches Ok(u) && u.2 == Some(host)) && url::url_path(addr) == Some(
            path,
        ) ==> {
            let place = Some((unicode::lowercase(host), unicode::lowercase(path)));
            wanted(addr, site, excluded) <==> (site.len() == 0 || of_site(place, site))
                && forall|k: int| 0 <= k < excluded.len() ==> !of_site(place, #[trigger] excluded[k])
        },
        url::url_parse(addr) is Err ==> (wanted(addr, site, excluded) <==> site.len() == 0),
{
}

/// A site that is given as a host, with a path or without, and with a scheme or without, is the
/// pages of that host and of the parts of it whose path begins with the path.
pub proof fn sites_are_hosts_with_a_path(
    scheme: Seq<char>,
    host: Seq<char>,
    path: Seq<char>,
    h: Seq<char>,
    p: Seq<char>,
)
    requires
        !scheme.contains(':') && !host.contains(':') && !path.contains(':'),
        !host.contains('/'),
        path.len() > 0 ==> path[0] == '/',
    ensures
        of_site(Some((h, p)), host + path) <==> (h == host || text::ends_with(h, "."@ + host))
            && text::starts_with(p, path),
        of_site(Some((h, p)), scheme + "://"@ + (host + path)) <==> of_site(
            Some((h, p)),
            host + path,
        ),
        !of_site(None, host + path),
{
    let s = host + path;
    let full = scheme + "://"@ + s;
    reveal_strlit("://");
    reveal_strlit("/");
    let mark = "://"@;
    let slash = "/"@;
    assert(slash =~= seq!['/']);
    assert forall|j: int| !text::occurs_at(s, mark, j) by {
        if text::occurs_at(s, mark, j) {
            assert(s.subrange(j, j + 3)[0] == s[j]);
            assert(mark[0] == ':');
            if j < host.len() {
                assert(host[j] == ':');
            } else {
                assert(path[j - host.len()] == ':');
            }
        }
    }
    text::lemma_first_at_found(s, mark, 0);
    text::lemma_first_at(s, mark, 0);
    assert(without_scheme(s) == s);
    let n = scheme.len() as int;
    assert(full.subrange(n, n + 3) =~= mark);
    assert(text::occurs_at(full, mark, n));
    assert forall|j: int| 0 <= j < n implies !text::occurs_at(full, mark, j) by {
        if text::occurs_at(full, mark, j) {
            assert(full.subrange(j, j + 3)[0] == full[j]);
            assert(scheme[j] == ':');
        }
    }
    text::lemma_first_at_found(full, mark, 0);
    text::lemma_first_at(full, mark, 0);
    assert(text::first_at(full, mark, 0) == n) by {
        let g = text::first_at(full, mark, 0);
        if g < n {
            assert(text::occurs_at(full, mark, g));
        } else if g > n {
            assert(!text::occurs_at(full, mark, n));
        }
    }
    assert(full.skip(n + 3) =~= s);
    assert forall|j: int| 0 <= j < host.len() implies !text::occurs_at(s, slash, j) by {
        if text::occurs_at(s, slash, j) {
            assert(s.subrange(j, j + 1)[0] == s[j]);
            assert(host[j] == '/');
        }
    }
    text::lemma_first_at_found(s, slash, 0);
    text::lemma_first_at(s, slash, 0);
    let k = host.len() as int;
    assert(text::first_at(s, slash, 0) == k) by {
        let g = text::first_at(s, slash, 0);
        if g < k {
            assert(text::occurs_at(s, slash, g));
        } else if path.len() > 0 {
            assert(s.subrange(k, k + 1) =~= slash);
            assert(text::occurs_at(s, slash, k));
        }
    }
    assert(s.take(k) =~= host);
    assert(s.skip(k) =~= path);
}

proof fn lemma_tidy(sites: Seq<Seq<char>>)
    ensures
        forall|i: int|
            0 <= i < sites.len() && unicode::lowercase(text::trimmed(#[trigger] sites[i])).len() > 0
                ==> tidy_sites(sites).contains(unicode::lowercase(text::trimmed(sites[i]))),
        forall|k: int|
            0 <= k < tidy_sites(sites).len() ==> exists|i: int|
                0 <= i < sites.len() && unicode::lowercase(text::trimmed(#[trigger] sites[i]))
                    == #[trigger] tidy_sites(sites)[k],
    decreases sites.len(),
{
    if sites.len() > 0 {
        let less = sites.drop_last();
        let rest = tidy_sites(less);
        let all = tidy_sites(sites);
        lemma_tidy(less);
        assert forall|i: int|
            0 <= i < sites.len() && unicode::lowercase(text::trimmed(#[trigger] sites[i])).len()
                > 0 implies all.contains(unicode::lowercase(text::trimmed(sites[i]))) by {
            if i < less.len() {
                assert(less[i] == sites[i]);
                let k = rest.index_of(unicode::lowercase(text::trimmed(sites[i])));
                assert(all[k] == rest[k]);
            } else {
                assert(all.last() == unicode::lowercase(text::trimmed(sites[i])));
            }
        }
        assert forall|k: int| 0 <= k < all.len() implies exists|i: int|
            0 <= i < sites.len() && unicode::lowercase(text::trimmed(#[trigger] sites[i]))
                == #[trigger] all[k] by {
            if k < rest.len() {
                assert(all[k] == rest[k]);
                let i = choose|i: int|
                    0 <= i < less.len() && unicode::lowercase(text::trimmed(#[trigger] less[i]))
                        == rest[k];
                assert(sites[i] == less[i]);
            } else {
                assert(unicode::lowercase(text::trimmed(sites[sites.len() - 1])) == all[k]);
            }
        }
    }
}

/// Sites are taken in lower case and without white space at their ends. Each that is excluded and
/// not blank counts, and no other; none is asked for where none is given.
pub proof fn sites_are_tidied(site: Option<Seq<char>>, excluded: Seq<Seq<char>>)
    ensures
        site is None ==> tidy_site(site).len() == 0,
        site matches Some(s) ==> tidy_site(site) == unicode::lowercase(text::trimmed(s)),
        forall|i: int|
            0 <= i < excluded.len() && unicode::lowercase(
                text::trimmed(#[trigger] excluded[i]),
            ).len() > 0 ==> tidy_sites(excluded).contains(
                unicode::lowercase(text::trimmed(excluded[i])),
            ),
        forall|k: int|
            0 <= k < tidy_sites(excluded).len() ==> exists|i: int|
                0 <= i < excluded.len() && unicode::lowercase(
                    text::trimmed(#[trigger] excluded[i]),
                ) == #[trigger] tidy_sites(excluded)[k],
{
    lemma_tidy(excluded);
}

/// What an engine is asked is what its address holds behind the question mark, decoded.
pub proof fn engines_are_asked_the_question(q: Seq<char>, d: Seq<char>, b: Seq<char>)
    requires
        engine_addresses(q) == (
            "https://html.duckduckgo.com/html/?q="@ + d,
            "https://www.bing.com/search?q="@ + b,
        ),
    ensures
        encoding::decoded(d) == q,
        encoding::decoded(b) == q,
{
    let e = encoding::encoded(q);
    let x = "https://html.duckduckgo.com/html/?q="@;
    let y = "https://www.bing.com/search?q="@;
    assert((x + d).skip(x.len() as int) =~= d);
    assert((x + e).skip(x.len() as int) =~= e);
    assert((y + b).skip(y.len() as int) =~= b);
    assert((y + e).skip(y.len() as int) =~= e);
    encoding::decoding_undoes_encoding(q);
}

proof fn lemma_exclusions(sites: Seq<Seq<char>>, i: int)
    requires
        0 <= i < sites.len(),
        text::trimmed(sites[i]).len() > 0,
    ensures
        text::contains(exclusions(sites), " -site:"@ + text::trimmed(sites[i])),
    decreases sites.len(),
{
    let less = sites.drop_last();
    let x = " -site:"@ + text::trimmed(sites[i]);
    let none = Seq::<char>::empty();
    if i == less.len() {
        text::what_is_put_in_is_found(exclusions(less), x, none);
        assert(exclusions(less) + x + none =~= exclusions(sites));
    } else {
        assert(less[i] == sites[i]);
        lemma_exclusions(less, i);
        let (a, b) = text::what_is_found_was_put_in(exclusions(less), x);
        let op = operator(" -site:"@, sites.last());
        text::what_is_put_in_is_found(a, x, b + op);
        assert(a + x + (b + op) =~= exclusions(sites));
    }
}

proof fn lemma_no_exclusions(sites: Seq<Seq<char>>)
    requires
        forall|i: int| 0 <= i < sites.len() ==> text::trimmed(#[trigger] sites[i]).len() == 0,
    ensures
        exclusions(sites).len() == 0,
    decreases sites.len(),
{
    if sites.len() > 0 {
        let less = sites.drop_last();
        assert forall|i: int| 0 <= i < less.len() implies text::trimmed(#[trigger] less[i]).len()
            == 0 by {
            assert(less[i] == sites[i]);
        }
        lemma_no_exclusions(less);
        assert(text::trimmed(sites[sites.len() - 1]).len() == 0);
    }
}

proof fn lemma_four_parts(query: Seq<char>, s: Seq<char>, e: Seq<char>, r: Seq<char>)
    ensures
        ({
            let q = query + s + e + r;
            &&& text::starts_with(q, query)
            &&& text::starts_with(q, query + s)
            &&& text::ends_with(q, r)
        }),
{
    let q = query + s + e + r;
    let none = Seq::<char>::empty();
    assert(q =~= query + (s + e + r));
    text::what_is_put_in_is_found(none, query, s + e + r);
    assert(q =~= (query + s) + (e + r));
    text::what_is_put_in_is_found(none, query + s, e + r);
    text::what_is_put_in_is_found(query + s + e, r, none);
}

proof fn lemma_third_part(query: Seq<char>, s: Seq<char>, e: Seq<char>, r: Seq<char>, x: Seq<char>)
    requires
        text::contains(e, x),
    ensures
        text::contains(query + s + e + r, x),
{
    let (a, b) = text::what_is_found_was_put_in(e, x);
    text::what_is_put_in_is_found(query + s + a, x, b + r);
    assert((query + s + a) + x + (b + r) =~= query + s + e + r);
}

/// A question begins with the query and goes on with an operator for the site, one for each site
/// that is excluded and one for how recent hits should be; what is blank or unknown adds none, and
/// without any of them the question is the query.
pub proof fn questions_hold_query_and_operators(
    query: Seq<char>,
    site: Option<Seq<char>>,
    excluded: Seq<Seq<char>>,
    recent: Option<Seq<char>>,
)
    ensures
        ({
            let q = question(query, site, excluded, recent);
            &&& text::starts_with(q, query)
            &&& site matches Some(s) ==> (text::trimmed(s).len() > 0 ==> text::starts_with(
                q,
                query + (" site:"@ + text::trimmed(s)),
            ))
            &&& forall|i: int|
                0 <= i < excluded.len() && text::trimmed(#[trigger] excluded[i]).len() > 0
                    ==> text::contains(q, " -site:"@ + text::trimmed(excluded[i]))
            &&& recent matches Some(f) ==> (f == "day"@ || f == "week"@ || f == "month"@ || f
                == "year"@ ==> text::ends_with(q, " when:"@ + f))
            &&& (site matches Some(s) ==> text::trimmed(s).len() == 0) && (forall|i: int|
                0 <= i < excluded.len() ==> text::trimmed(#[trigger] excluded[i]).len() == 0) && (
            recent matches Some(f) ==> f != "day"@ && f != "week"@ && f != "month"@ && f != "year"@)
                ==> q == query
        }),
{
    let q = question(query, site, excluded, recent);
    let s = match site {
        Some(s) => operator(" site:"@, s),
        None => seq![],
    };
    let e = exclusions(excluded);
    let r = match recent {
        Some(f) => recency(f),
        None => seq![],
    };
    assert(q == query + s + e + r);
    lemma_four_parts(query, s, e, r);
    assert forall|i: int|
        0 <= i < excluded.len() && text::trimmed(#[trigger] excluded[i]).len() > 0 implies
        text::contains(q, " -site:"@ + text::trimmed(excluded[i])) by {
        lemma_exclusions(excluded, i);
        lemma_third_part(query, s, e, r, " -site:"@ + text::trimmed(excluded[i]));
    }
    if forall|i: int| 0 <= i < excluded.len() ==> text::trimmed(#[trigger] excluded[i]).len() == 0 {
        lemma_no_exclusions(excluded);
        if s.len() == 0 && r.len() == 0 {
            assert(q =~= query);
        }
    }
}

/// The value of a parameter of an address is what stands between its name and the next ampersand,
/// or the end.
pub proof fn parameters_are_read(
    before: Seq<char>,
    name: Seq<char>,
    value: Seq<char>,
    rest: Seq<char>,
)
    requires
        name.len() > 0,
        ({
            let s = before + name + value + rest;
            let n = before.len() + name.len();
            forall|j: int|
                0 <= j < before.len() || n <= j < n + value.len() ==> !#[trigger] text::occurs_at(
                    s,
                    name,
                    j,
                )
        }),
        !value.contains('&') && !name.contains('&'),
        rest.len() > 0 ==> rest[0] == '&',
    ensures
        parameter(before + name + value + rest, name) == Some(value),
{
    let s = before + name + value + rest;
    let f = before.len() as int;
    let n = f + name.len();
    assert(s.subrange(f, n) =~= name);
    assert(text::occurs_at(s, name, f));
    text::texts_are_split_where_the_separator_stands(s, name, f);
    let t = value + rest;
    assert(s.skip(n) =~= t);
    assert forall|j: int| 0 <= j < value.len() implies !#[trigger] text::occurs_at(t, name, j) by {
        if text::occurs_at(t, name, j) {
            assert(s.subrange(n + j, n + j + name.len()) =~= t.subrange(j, j + name.len()));
            assert(text::occurs_at(s, name, n + j));
        }
    }
    let m = value.len() as int;
    let parts = text::pieces(t, name);
    text::splitting_loses_nothing(t, name);
    let p = parts[0];
    assert(text::pieces(s, name)[1] == p);
    reveal_strlit("&");
    let amp = "&"@;
    assert(amp =~= seq!['&']);
    if text::contains(t, name) {
        text::lemma_first_at_found(t, name, 0);
        text::lemma_first_at(t, name, 0);
        let g = text::first_at(t, name, 0);
        assert(text::occurs_at(t, name, g)) by {
            if g == t.len() {
                let j = choose|j: int| text::occurs_at(t, name, j);
                assert(0 <= j);
            }
        }
        text::texts_are_split_where_the_separator_stands(t, name, g);
        assert(p == t.take(g));
        assert(g >= m);
        if g == m {
            assert(rest.len() > 0) by {
                assert(g + name.len() <= t.len());
            }
            assert(t.subrange(g, g + name.len())[0] == t[g]);
            assert(t[g] == rest[0]);
            assert(name[0] == '&');
            assert(false);
        }
        assert(p[m] == t[m] && t[m] == rest[0]);
        assert(p =~= value + amp + p.skip(m + 1));
        text::lemma_pieces(value, '&', p.skip(m + 1));
    } else {
        text::texts_without_the_separator_stay_whole(t, name);
        assert(p == t);
        if rest.len() > 0 {
            assert(p =~= value + amp + p.skip(m + 1));
            text::lemma_pieces(value, '&', p.skip(m + 1));
        } else {
            assert(p =~= value);
            text::lemma_pieces(value, '&', Seq::empty());
        }
    }
}

proof fn lemma_encoded_signs(u: Seq<char>)
    ensures
        !encoding::encoded(u).contains('='),
        !encoding::encoded(u).contains('&'),
{
    encoding::encoding_leaves_query_characters(u);
    let e = encoding::encoded(u);
    assert forall|i: int| 0 <= i < e.len() implies e[i] != '=' && e[i] != '&' by {
        assert(encoding::query_char(e[i]));
    }
}

/// A redirecting link of DuckDuckGo leads to the address that it carries encoded, whatever other
/// parameters follow.
pub proof fn redirects_lead_to_what_they_carry(before: Seq<char>, u: Seq<char>, rest: Seq<char>)
    requires
        !before.contains('='),
        rest.len() > 0 ==> rest[0] == '&',
    ensures
        redirect_of(before + "uddg="@ + encoding::encoded(u) + rest) == Some(u),
{
    let e = encoding::encoded(u);
    lemma_encoded_signs(u);
    reveal_strlit("uddg=");
    let name = "uddg="@;
    assert(name =~= seq!['u', 'd', 'd', 'g', '=']);
    let s = before + name + e + rest;
    let f = before.len() as int;
    let n = f + 5;
    assert forall|j: int| 0 <= j < f || n <= j < n + e.len() implies !#[trigger] text::occurs_at(
        s,
        name,
        j,
    ) by {
        if text::occurs_at(s, name, j) {
            let w = s.subrange(j, j + 5);
            assert(w[0] == s[j] && w[1] == s[j + 1] && w[2] == s[j + 2] && w[3] == s[j + 3] && w[4]
                == s[j + 4]);
            if j < f {
                if j + 4 < f {
                    assert(before[j + 4] == '=');
                } else {
                    assert(s[j + 4] == name[j + 4 - f]);
                    assert(s[f] == 'u');
                    assert(j + 4 == f + 4);
                }
            } else {
                assert(s[j + 4] == '=');
                if j + 4 < n + e.len() {
                    assert(e[j + 4 - n] == '=');
                } else {
                    let x = n + e.len();
                    assert(s[x] == rest[0]);
                    assert(j < x <= j + 4);
                    assert(s[x] == w[x - j]);
                }
            }
        }
    }
    assert(!name.contains('&')) by {
        assert forall|i: int| 0 <= i < name.len() implies name[i] != '&' by {}
    }
    parameters_are_read(before, name, e, rest);
    encoding::decoding_undoes_encoding(u);
}

proof fn lemma_ddg_complete(
    headings: Seq<Option<(Option<Seq<char>>, Seq<Seq<char>>)>>,
    summaries: Seq<Option<(Option<Seq<char>>, Seq<Seq<char>>)>>,
    n: int,
    i: int,
    h: HitView,
)
    requires
        0 <= i < n,
        headings[i] matches Some(e) && ddg_hit_of(
            e,
            summary_at(summaries, i),
            as_url(redirect_of(target_of(e.0))),
        ) == Some(h),
    ensures
        ddg_results(headings, summaries, n).contains(h),
    decreases n,
{
    let all = ddg_results(headings, summaries, n);
    if i == n - 1 {
        assert(all.last() == h);
    } else {
        lemma_ddg_complete(headings, summaries, n - 1, i, h);
        let rest = ddg_results(headings, summaries, n - 1);
        let k = rest.index_of(h);
        assert(all[k] == h);
    }
}

/// Every result on a page of DuckDuckGo that has a title and leads to the web is a hit: with its
/// title, the address that its link carries or else is, and its summary.
pub proof fn results_of_duckduckgo_are_hits(
    page: Seq<char>,
    i: int,
    e: (Option<Seq<char>>, Seq<Seq<char>>),
    addr: Seq<char>,
)
    requires
        0 <= i < html::css_select_first_within(
            page,
            ".result"@,
            "h2.result__title a"@,
            "href"@,
        ).len(),
        html::css_select_first_within(page, ".result"@, "h2.result__title a"@, "href"@)[i] == Some(
            e,
        ),
        text::trimmed(text::joined(e.1, " "@)).len() > 0,
        e.0 matches Some(href) && match redirect_of(href) {
            Some(d) => match url::url_parse(d) {
                Ok(u) => addr == u.0,
                Err(_) => addr == href,
            },
            None => addr == href,
        },
        text::starts_with(addr, "http"@),
    ensures
        ({
            let snippets = html::css_select_first_within(
                page,
                ".result"@,
                ".result__snippet"@,
                "href"@,
            );
            ddg_page(page).contains(
                HitView {
                    title: text::trimmed(text::joined(e.1, " "@)),
                    url: addr,
                    snippet: if i < snippets.len() && snippets[i] is Some {
                        text::trimmed(text::joined((snippets[i]->0).1, " "@))
                    } else {
                        Seq::empty()
                    },
                },
            )
        }),
{
    let headings = html::css_select_first_within(page, ".result"@, "h2.result__title a"@, "href"@);
    let snippets = html::css_select_first_within(page, ".result"@, ".result__snippet"@, "href"@);
    reveal_strlit("http");
    let h = ddg_hit_of(e, summary_at(snippets, i), as_url(redirect_of(target_of(e.0))))->0;
    lemma_ddg_complete(headings, snippets, headings.len() as int, i, h);
    let all = ddg_results(headings, snippets, headings.len() as int);
    assert(all.len() > 0) by {
        let k = all.index_of(h);
    }
}

proof fn lemma_bing_complete(
    links: Seq<(Option<Seq<char>>, Seq<Seq<char>>)>,
    strict: bool,
    i: int,
    h: HitView,
)
    requires
        0 <= i < links.len(),
        bing_hit_of(
            links[i],
            unwrapped(payload_of(text::trimmed(target_of(links[i].0)))),
            strict,
        ) == Some(h),
    ensures
        bing_links(links, strict).contains(h),
    decreases links.len(),
{
    let all = bing_links(links, strict);
    let less = links.drop_last();
    if i == less.len() {
        assert(all.last() == h);
    } else {
        assert(less[i] == links[i]);
        lemma_bing_complete(less, strict, i, h);
        let rest = bing_links(less, strict);
        let k = rest.index_of(h);
        assert(all[k] == h);
    }
}

/// Every result on a page of Bing that has a title and leads to the web is a hit: with its title,
/// and the address that its link carries or else is.
pub proof fn results_of_bing_are_hits(page: Seq<char>, i: int, href: Seq<char>, addr: Seq<char>)
    requires
        ({
            let links = html::css_select(page, "li.b_algo h2 a"@, "href"@);
            &&& 0 <= i < links.len()
            &&& links[i].0 == Some(href)
            &&& text::trimmed(text::joined(links[i].1, " "@)).len() > 0
        }),
        match unwrapped(payload_of(text::trimmed(href))) {
            Some(u) => addr == u,
            None => addr == text::trimmed(href),
        },
        text::starts_with(addr, "http"@),
    ensures
        bing_page(page).contains(
            HitView {
                title: text::trimmed(
                    text::joined(html::css_select(page, "li.b_algo h2 a"@, "href"@)[i].1, " "@),
                ),
                url: addr,
                snippet: Seq::empty(),
            },
        ),
{
    let links = html::css_select(page, "li.b_algo h2 a"@, "href"@);
    let h = bing_hit_of(
        links[i],
        unwrapped(payload_of(text::trimmed(target_of(links[i].0)))),
        false,
    )->0;
    lemma_bing_complete(links, false, i, h);
    let all = bing_links(links, false);
    assert(all.len() > 0) by {
        let k = all.index_of(h);
    }
    assert(h.snippet =~= Seq::empty());
}

/// A link of Bing that is none of its redirects carries nothing; one that is carries the value of
/// its parameter, without the mark before it, filled up to a multiple of four bytes.
pub proof fn redirects_of_bing_carry_a_payload(href: Seq<char>, value: Seq<char>)
    requires
        parameter(href, "u="@) == Some(value),
    ensures
        !text::contains(href, "bing.com/ck/a"@) ==> payload_of(href) is None,
        text::contains(href, "bing.com/ck/a"@) ==> (payload_of(href) matches Some(p) && {
            let bare = if text::starts_with(value, "a1"@) {
                value.skip(2)
            } else {
                value
            };
            &&& p.take(bare.len() as int) == bare
            &&& p.len() < bare.len() + 4
            &&& forall|i: int| bare.len() <= i < p.len() ==> #[trigger] p[i] == '='
            &&& encode_utf8(p).len() % 4 == 0
        }),
{
    let bare = if text::starts_with(value, "a1"@) {
        value.skip(2)
    } else {
        value
    };
    let n = ((4 - text::byte_len(bare) % 4) % 4) as nat;
    let fill = Seq::new(n, |i: int| '=');
    let p = bare + fill;
    assert(p.take(bare.len() as int) =~= bare);
    text::lemma_encode_concat(bare, fill);
    assert(is_ascii_chars(fill));
    is_ascii_chars_encode_utf8(fill);
}

/// The hits of a page that is there are the hits of the search.
pub proof fn pages_that_came_are_read(page: Seq<char>)
    ensures
        ddg_optional(Some(page)) == ddg_page(page),
        bing_optional(Some(page)) == bing_page(page),
        ddg_optional(None).len() == 0,
        bing_optional(None).len() == 0,
{
}

/// A recency is taken in lower case and without white space at its ends.
pub proof fn recencies_are_tidied(f: Option<Seq<char>>)
    ensures
        f is None ==> tidied(f) is None,
        f matches Some(t) ==> tidied(f) == Some(unicode::lowercase(text::trimmed(t))),
{
}

proof fn lemma_ddg_links_complete(
    links: Seq<(Option<Seq<char>>, Seq<Seq<char>>)>,
    i: int,
    h: HitView,
)
    requires
        0 <= i < links.len(),
        ddg_link_of(links[i]) == Some(h),
    ensures
        ddg_links(links).contains(h),
    decreases links.len(),
{
    let all = ddg_links(links);
    let less = links.drop_last();
    if i == less.len() {
        assert(all.last() == h);
    } else {
        assert(less[i] == links[i]);
        lemma_ddg_links_complete(less, i, h);
        let rest = ddg_links(less);
        let k = rest.index_of(h);
        assert(all[k] == h);
    }
}

/// Where a page of DuckDuckGo has no result that makes a hit, each of its links that leads away
/// from the engine to the web and has a text of ten to two hundred bytes is one.
pub proof fn links_of_duckduckgo_are_hits(page: Seq<char>, i: int, addr: Seq<char>)
    requires
        html::css_select_first_within(
            page,
            ".result"@,
            "h2.result__title a"@,
            "href"@,
        ).len() == 0,
        ({
            let links = html::css_select(page, "a[href]"@, "href"@);
            &&& 0 <= i < links.len()
            &&& links[i].0 == Some(addr)
            &&& text::trimmed(addr) == addr
            &&& redirect_of(addr) is None
            &&& 10 <= encode_utf8(text::trimmed(text::joined(links[i].1, " "@))).len() <= 200
        }),
        text::starts_with(addr, "http"@),
        !text::contains(addr, "duckduckgo.com"@),
    ensures
        ddg_page(page).contains(
            HitView {
                title: text::trimmed(
                    text::joined(html::css_select(page, "a[href]"@, "href"@)[i].1, " "@),
                ),
                url: addr,
                snippet: Seq::empty(),
            },
        ),
{
    let links = html::css_select(page, "a[href]"@, "href"@);
    reveal_strlit("http");
    reveal_strlit("//");
    assert(addr.subrange(0, 4)[0] == addr[0]);
    assert("http"@[0] == 'h');
    if text::starts_with(addr, "//"@) {
        assert(addr.subrange(0, 2)[0] == addr[0]);
        assert("//"@[0] == '/');
    }
    let h = ddg_link_of(links[i])->0;
    lemma_ddg_links_complete(links, i, h);
    assert(h.snippet =~= Seq::empty());
}

/// Where a page of Bing has no result, each of its headings that leads away from the engine to the
/// web and has a text of at least ten bytes is a hit.
pub proof fn headings_of_bing_are_hits(page: Seq<char>, i: int, href: Seq<char>, addr: Seq<char>)
    requires
        html::css_select(page, "li.b_algo h2 a"@, "href"@).len() == 0,
        ({
            let links = html::css_select(page, "h2 a[href]"@, "href"@);
            &&& 0 <= i < links.len()
            &&& links[i].0 == Some(href)
            &&& encode_utf8(text::trimmed(text::joined(links[i].1, " "@))).len() >= 10
        }),
        match unwrapped(payload_of(text::trimmed(href))) {
            Some(u) => addr == u,
            None => addr == text::trimmed(href),
        },
        text::starts_with(addr, "http"@),
        !text::contains(addr, "bing.com"@),
    ensures
        bing_page(page).contains(
            HitView {
                title: text::trimmed(
                    text::joined(html::css_select(page, "h2 a[href]"@, "href"@)[i].1, " "@),
                ),
                url: addr,
                snippet: Seq::empty(),
            },
        ),
{
    let links = html::css_select(page, "h2 a[href]"@, "href"@);
    let title = text::trimmed(text::joined(links[i].1, " "@));
    if title.len() == 0 {
        assert(title =~= Seq::<char>::empty());
        assert(encode_utf8(Seq::<char>::empty()) =~= Seq::<u8>::empty());
    }
    let h = bing_hit_of(
        links[i],
        unwrapped(payload_of(text::trimmed(target_of(links[i].0)))),
        true,
    )->0;
    lemma_bing_complete(links, true, i, h);
    assert(h.snippet =~= Seq::empty());
}

/// What a payload says is the text that its bytes encode; what is no base64 or no text says
/// nothing.
pub proof fn payloads_say_what_they_encode(payload: Seq<char>, s: Seq<char>)
    ensures
        codec::base64_bytes(payload) == Some(encode_utf8(s)) ==> unwrapped(Some(payload)) == Some(s),
        codec::base64_bytes(payload) is None ==> unwrapped(Some(payload)) is None,
        unwrapped(None) is None,
{
    encode_utf8_valid_utf8(s);
    encode_utf8_decode_utf8(s);
}

/// A mere link on a page of DuckDuckGo leads where it says, with the scheme that it may leave out;
/// one that goes through the engine's redirect leads to what it carries.
pub proof fn links_of_duckduckgo_lead_somewhere(attr: Seq<char>, d: Seq<char>)
    ensures
        ({
            let t = text::trimmed(attr);
            let to = ddg_link_target(Some(attr));
            &&& !text::starts_with(t, "//"@) && redirect_of(t) is None ==> to == t
            &&& !text::starts_with(t, "//"@) && !text::contains(t, "duckduckgo.com/l/?"@) ==> to == t
            &&& !text::starts_with(t, "//"@) && redirect_of(t) == Some(d) && text::contains(
                t,
                "duckduckgo.com/l/?"@,
            ) ==> to == d
            &&& text::starts_with(t, "//"@) && redirect_of("https:"@ + t) is None ==> to
                == "https:"@ + t
            &&& text::starts_with(t, "//"@) && redirect_of("https:"@ + t) == Some(d)
                && text::contains("https:"@ + t, "duckduckgo.com/l/?"@) ==> to == d
        }),
{
}

} // verus!
