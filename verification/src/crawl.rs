//! Crawling a site: which page comes next, and what a fetched page adds to the plan.
//!
//! The crawl is a state that hands out one address at a time and takes back what was fetched.
//! It starts at one page and follows its links breadth first, or goes through the pages that a
//! site map lists. It stays on one domain and hands out no page twice.

use crate::address;
use crate::address::UrlError;
use crate::answer;
use crate::answer::LinkOut;
use crate::answer::ResultView;
use crate::answer::ScrapeResult;
use crate::bindings::unicode;
use crate::bindings::url;
use crate::bindings::url::UrlParts;
use crate::order;
use crate::request::Limits;
use crate::sitemap;
use crate::text;
use vstd::prelude::*;

verus! {

// ── Links ───────────────────────────────────────────────────────────────────

/// A link of the site that leads to a page: its host is the domain, its scheme one of the
/// web, and it names neither a document nor a picture nor a part of a page.
pub open spec fn leads_to_page(
    href: Seq<char>,
    u: (Seq<char>, Seq<char>, Option<Seq<char>>),
    domain: Seq<char>,
) -> bool {
    &&& sitemap::of_domain(u, domain)
    &&& address::web_scheme(u.1)
    &&& !text::ends_with(href, ".pdf"@)
    &&& !text::ends_with(href, ".jpg"@)
    &&& !text::ends_with(href, ".png"@)
    &&& !text::contains(href, "#"@)
}

/// The target of a link is a page of the site.
pub open spec fn on_site(href: Seq<char>, domain: Seq<char>) -> bool {
    match url::url_parse(href) {
        Ok(u) => leads_to_page(href, u, domain),
        Err(_) => false,
    }
}

/// Whether a link with the given parts leads to a page of the site.
pub fn is_page_link(href: &str, u: &UrlParts, domain: &str) -> (r: bool)
    ensures
        r == leads_to_page(href@, u@, domain@),
{
    sitemap::is_of_domain(u, domain) && address::is_web_scheme(u.scheme.as_str())
        && !text::has_suffix(href, ".pdf") && !text::has_suffix(href, ".jpg")
        && !text::has_suffix(href, ".png") && !text::has(href, "#")
}

/// Whether the target of a link is a page of the site.
pub fn is_on_site(href: &str, domain: &str) -> (r: bool)
    ensures
        r == on_site(href@, domain@),
{
    match url::parse(href) {
        Ok(u) => is_page_link(href, &u, domain),
        Err(_) => false,
    }
}

/// How many of the terms stand in a lower-cased link text.
pub open spec fn closeness_of(lower: Seq<char>, terms: Seq<Seq<char>>) -> nat
    decreases terms.len(),
{
    if terms.len() == 0 {
        0
    } else {
        closeness_of(lower, terms.drop_last()) + if text::contains(lower, terms.last()) {
            1nat
        } else {
            0
        }
    }
}

/// How many of the terms stand in a lower-cased link text.
pub fn closeness(lower: &str, terms: &[String]) -> (r: usize)
    ensures
        r == closeness_of(lower@, text::views(terms@)),
{
    let c = text::to_chars(lower);
    let ghost t = text::views(terms@);
    let mut n: usize = 0;
    let mut k: usize = 0;
    let count: usize = terms.len();
    while k < count
        invariant
            k <= count,
            count == terms@.len(),
            c@ == lower@,
            t == text::views(terms@),
            n <= k,
            n == closeness_of(lower@, t.take(k as int)),
        decreases count - k,
    {
        assert(t.take(k + 1).drop_last() == t.take(k as int));
        assert(t.take(k + 1).last() == terms@[k as int]@);
        if text::found_in(&c, &text::to_chars(terms[k].as_str())) {
            n += 1;
        }
        k += 1;
    }
    assert(t.take(k as int) == t);
    n
}

/// The targets of those links that lead to pages of the site not seen yet, in order, each with
/// the closeness of its text to the terms.
pub open spec fn prospects(
    links: Seq<(Seq<char>, Seq<char>)>,
    visited: Seq<Seq<char>>,
    domain: Seq<char>,
    terms: Seq<Seq<char>>,
) -> (Seq<nat>, Seq<Seq<char>>)
    decreases links.len(),
{
    if links.len() == 0 {
        (seq![], seq![])
    } else {
        let rest = prospects(links.drop_last(), visited, domain, terms);
        let (href, label) = links.last();
        if !visited.contains(address::normal(href)) && on_site(href, domain) {
            (
                rest.0.push(closeness_of(unicode::lowercase(label), terms)),
                rest.1.push(href),
            )
        } else {
            rest
        }
    }
}

/// The ten closest of the links that lead to new pages of the site, closest first.
pub open spec fn promising(
    links: Seq<(Seq<char>, Seq<char>)>,
    visited: Seq<Seq<char>>,
    domain: Seq<char>,
    terms: Seq<Seq<char>>,
) -> Seq<Seq<char>> {
    let (scores, hrefs) = prospects(links, visited, domain, terms);
    let best = text::first(order::ranking(scores), 10);
    Seq::new(best.len(), |k: int| hrefs[best[k]])
}

// ── State ───────────────────────────────────────────────────────────────────

/// What kind of crawl it is.
#[derive(Debug, Clone, Copy, PartialEq, Eq, Structural)]
pub enum Mode {
    /// Answer with the pages that links lead to.
    Follow,
    /// Answer with the pages that a site map lists.
    Listed,
}

/// A crawl on its way.
pub struct Crawl {
    mode: Mode,
    domain: String,
    limits: Limits,
    /// What the links followed should be about.
    terms: Vec<String>,
    /// The normal forms of the addresses seen.
    visited: Vec<String>,
    /// The addresses still to fetch, each with its distance from the start.
    queue: Vec<(String, usize)>,
    pages: Vec<ScrapeResult>,
    total_chars: usize,
    done: bool,
}

/// The state of a crawl.
pub struct CrawlView {
    pub mode: Mode,
    pub domain: Seq<char>,
    pub limits: Limits,
    pub terms: Seq<Seq<char>>,
    pub visited: Seq<Seq<char>>,
    pub queue: Seq<(Seq<char>, nat)>,
    pub pages: Seq<ResultView>,
    pub total_chars: nat,
    pub done: bool,
}

/// The addresses and distances behind a queue.
pub open spec fn queue_views(v: Seq<(String, usize)>) -> Seq<(Seq<char>, nat)> {
    Seq::new(v.len(), |i: int| (v[i].0@, v[i].1 as nat))
}

impl View for Crawl {
    type V = CrawlView;

    closed spec fn view(&self) -> CrawlView {
        CrawlView {
            mode: self.mode,
            domain: self.domain@,
            limits: self.limits,
            terms: text::views(self.terms@),
            visited: text::views(self.visited@),
            queue: queue_views(self.queue@),
            pages: answer::result_views(self.pages@),
            total_chars: self.total_chars as nat,
            done: self.done,
        }
    }
}

/// More was read than the crawl may read.
pub open spec fn exceeded(v: CrawlView) -> bool {
    match v.limits.max_total_chars {
        Some(limit) => v.total_chars > limit,
        None => false,
    }
}

/// The crawl has as many pages as it may.
pub open spec fn full(v: CrawlView) -> bool {
    v.pages.len() >= v.limits.max_pages
}

/// The address to fetch next, with its distance from the start, and the state once it was
/// handed out; or the end.
pub open spec fn upcoming(v: CrawlView) -> (Option<(Seq<char>, nat)>, CrawlView)
    decreases v.queue.len(),
{
    if v.done || v.queue.len() == 0 {
        (None, CrawlView { done: true, ..v })
    } else {
        let (addr, depth) = v.queue[0];
        let w = CrawlView { queue: v.queue.drop_first(), ..v };
        if v.mode == Mode::Listed {
            if v.visited.contains(address::normal(addr)) {
                upcoming(w)
            } else {
                let x = CrawlView { visited: v.visited.push(address::normal(addr)), ..w };
                if full(x) {
                    (None, CrawlView { done: true, ..x })
                } else {
                    (Some((addr, depth)), x)
                }
            }
        } else if full(v) {
            (None, CrawlView { done: true, ..w })
        } else if depth > v.limits.max_depth {
            upcoming(w)
        } else {
            (Some((addr, depth)), w)
        }
    }
}

/// The state with one more address to fetch, unless it was seen.
pub open spec fn admitted(v: CrawlView, href: Seq<char>, depth: nat) -> CrawlView {
    if v.visited.contains(address::normal(href)) {
        v
    } else {
        CrawlView {
            visited: v.visited.push(address::normal(href)),
            queue: v.queue.push((href, depth)),
            ..v
        }
    }
}

/// The state with each of the addresses added that was not seen.
pub open spec fn all_admitted(v: CrawlView, hrefs: Seq<Seq<char>>, depth: nat) -> CrawlView
    decreases hrefs.len(),
{
    if hrefs.len() == 0 {
        v
    } else {
        admitted(all_admitted(v, hrefs.drop_last(), depth), hrefs.last(), depth)
    }
}

/// The state once a page, handed out at some distance from the start, was fetched.
pub open spec fn taken(v: CrawlView, depth: nat, page: ResultView) -> CrawlView {
    let w = CrawlView { total_chars: v.total_chars + page.markdown.len(), ..v };
    let x = if v.mode == Mode::Follow && depth < v.limits.max_depth && !full(w) && !exceeded(w) {
        all_admitted(w, promising(page.links, w.visited, w.domain, w.terms), depth + 1)
    } else {
        w
    };
    CrawlView { pages: x.pages.push(page), done: x.done || exceeded(x), ..x }
}

impl Crawl {
    /// More was read than the crawl may read.
    fn is_exceeded(&self) -> (r: bool)
        ensures
            r == exceeded(self@),
    {
        match self.limits.max_total_chars {
            Some(limit) => self.total_chars > limit,
            None => false,
        }
    }

    /// The crawl has as many pages as it may.
    fn is_full(&self) -> (r: bool)
        ensures
            r == full(self@),
    {
        assert(self@.pages.len() == self.pages@.len());
        self.pages.len() >= self.limits.max_pages
    }

    /// Takes the first address out of the queue.
    fn pop(&mut self) -> (r: (String, usize))
        requires
            old(self)@.queue.len() > 0,
        ensures
            (r.0@, r.1 as nat) == old(self)@.queue[0],
            final(self)@ == (CrawlView { queue: old(self)@.queue.drop_first(), ..old(self)@ }),
    {
        let r = self.queue.remove(0);
        assert(self@.queue =~= old(self)@.queue.drop_first());
        r
    }

    /// Notes the normal form of an address as seen.
    fn note(&mut self, norm: String)
        ensures
            final(self)@ == (CrawlView { visited: old(self)@.visited.push(norm@), ..old(self)@ }),
    {
        self.visited.push(norm);
        assert(self@.visited =~= old(self)@.visited.push(norm@));
    }

    /// Ends the crawl.
    fn finish(&mut self)
        ensures
            final(self)@ == (CrawlView { done: true, ..old(self)@ }),
    {
        self.done = true;
    }

    /// The address to fetch next, with its distance from the start; nothing at the end.
    pub fn next(&mut self) -> (r: Option<(String, usize)>)
        ensures
            final(self)@ == upcoming(old(self)@).1,
            match r {
                Some((addr, depth)) => upcoming(old(self)@).0 == Some((addr@, depth as nat)),
                None => upcoming(old(self)@).0 is None,
            },
    {
        assert(self@.queue.len() == self.queue@.len());
        while !self.done && self.queue.len() > 0
            invariant
                upcoming(self@) == upcoming(old(self)@),
                self@.queue.len() == self.queue@.len(),
                self@.done == self.done,
            decreases self.queue@.len(),
        {
            let ghost v = self@;
            if self.mode == Mode::Listed {
                let (addr, depth) = self.pop();
                let norm = address::normalize_url(addr.as_str());
                if !text::listed(&self.visited, norm.as_str()) {
                    self.note(norm);
                    if self.is_full() {
                        self.finish();
                        return None;
                    }
                    return Some((addr, depth));
                }
            } else {
                let full = self.is_full();
                let (addr, depth) = self.pop();
                if full {
                    self.finish();
                    return None;
                }
                if depth <= self.limits.max_depth {
                    return Some((addr, depth));
                }
            }
            assert(self@.queue.len() == self.queue@.len());
        }
        self.finish();
        None
    }

    /// Adds an address to fetch, unless it was seen.
    fn enqueue(&mut self, href: &str, depth: usize)
        ensures
            final(self)@ == admitted(old(self)@, href@, depth as nat),
    {
        let norm = address::normalize_url(href);
        if !text::listed(&self.visited, norm.as_str()) {
            self.note(norm);
            self.queue.push((href.to_owned(), depth));
            assert(self@.queue =~= old(self)@.queue.push((href@, depth as nat)));
        }
    }

    /// The ten closest of the links that lead to new pages of the site, closest first.
    fn promise(&self, links: &[LinkOut]) -> (r: Vec<String>)
        ensures
            text::views(r@) == promising(
                answer::out_views(links@),
                self@.visited,
                self@.domain,
                self@.terms,
            ),
    {
        let ghost all = answer::out_views(links@);
        let mut scores: Vec<u128> = Vec::new();
        let mut hrefs: Vec<String> = Vec::new();
        let mut i: usize = 0;
        assert(order::nats(scores@) =~= Seq::empty());
        while i < links.len()
            invariant
                i <= links@.len(),
                all == answer::out_views(links@),
                (order::nats(scores@), text::views(hrefs@)) == prospects(
                    all.take(i as int),
                    self@.visited,
                    self@.domain,
                    self@.terms,
                ),
                scores@.len() == hrefs@.len(),
            decreases links@.len() - i,
        {
            assert(all.take(i + 1).drop_last() == all.take(i as int));
            assert(all.take(i + 1).last() == links@[i as int]@);
            let href = links[i].href.as_str();
            let norm = address::normalize_url(href);
            if !text::listed(&self.visited, norm.as_str()) && is_on_site(
                href,
                self.domain.as_str(),
            ) {
                let ghost s = order::nats(scores@);
                let ghost h = text::views(hrefs@);
                let lower = unicode::to_lowercase(links[i].text.as_str());
                let n = closeness(lower.as_str(), &self.terms);
                scores.push(n as u128);
                hrefs.push(links[i].href.clone());
                assert(order::nats(scores@) =~= s.push(n as nat));
                assert(text::views(hrefs@) =~= h.push(all[i as int].0));
            }
            i += 1;
        }
        assert(all.take(i as int) == all);
        let ranked = order::rank_positions(&scores);
        let ghost best = text::first(order::ranking(order::nats(scores@)), 10);
        assert(order::ints(ranked@).len() == ranked@.len());
        let mut r: Vec<String> = Vec::new();
        let mut k: usize = 0;
        while k < ranked.len() && k < 10
            invariant
                k <= ranked@.len(),
                k <= 10,
                scores@.len() == hrefs@.len(),
                ranked@.len() == scores@.len(),
                forall|j: int| 0 <= j < ranked@.len() ==> #[trigger] ranked@[j] < scores@.len(),
                best == text::first(order::ints(ranked@), 10),
                order::ints(ranked@).len() == ranked@.len(),
                text::views(r@) == Seq::new(k as nat, |j: int| text::views(hrefs@)[best[j]]),
            decreases ranked@.len() - k,
        {
            let ghost before = text::views(r@);
            assert(best[k as int] == ranked@[k as int] as int);
            r.push(hrefs[ranked[k]].clone());
            assert(text::views(r@) =~= before.push(text::views(hrefs@)[best[k as int]]));
            k += 1;
        }
        r
    }

    /// Takes a page that was fetched at some distance from the start. What was read altogether
    /// must not exceed the numbers.
    pub fn take(&mut self, depth: usize, page: ScrapeResult)
        requires
            old(self)@.total_chars + page@.markdown.len() <= usize::MAX,
        ensures
            final(self)@ == taken(old(self)@, depth as nat, page@),
    {
        self.total_chars = self.total_chars + text::count_chars(page.markdown.as_str());
        let exceeded = self.is_exceeded();
        if self.mode == Mode::Follow && depth < self.limits.max_depth && !self.is_full()
            && !exceeded {
            let hrefs = self.promise(&page.links);
            let ghost h = text::views(hrefs@);
            let ghost w = self@;
            let mut k: usize = 0;
            while k < hrefs.len()
                invariant
                    k <= hrefs@.len(),
                    h == text::views(hrefs@),
                    depth < usize::MAX,
                    self@ == all_admitted(w, h.take(k as int), (depth + 1) as nat),
                decreases hrefs@.len() - k,
            {
                assert(h.take(k + 1).drop_last() == h.take(k as int));
                assert(h.take(k + 1).last() == hrefs@[k as int]@);
                self.enqueue(hrefs[k].as_str(), depth + 1);
                k += 1;
            }
            assert(h.take(k as int) == h);
            proof {
                lemma_admitted_frame(w, h, (depth + 1) as nat);
            }
        }
        let ghost x = self@;
        self.pages.push(page);
        assert(self@.pages =~= x.pages.push(page@));
        if exceeded {
            self.finish();
        }
    }
}

/// Adding addresses leaves the rest of the state alone.
proof fn lemma_admitted_frame(v: CrawlView, hrefs: Seq<Seq<char>>, depth: nat)
    ensures
        ({
            let w = all_admitted(v, hrefs, depth);
            w == CrawlView { visited: w.visited, queue: w.queue, ..v }
        }),
    decreases hrefs.len(),
{
    if hrefs.len() > 0 {
        lemma_admitted_frame(v, hrefs.drop_last(), depth);
    }
}

// ── Start and end ───────────────────────────────────────────────────────────

/// What a crawl answers.
#[derive(Debug)]
pub struct CrawlResult {
    pub start_url: String,
    pub pages: Vec<ScrapeResult>,
    pub visited: Vec<String>,
    pub total_chars: usize,
}

/// The host of an address, empty if it has none.
pub open spec fn domain_of(addr: Seq<char>) -> Seq<char> {
    match url::url_parse(addr) {
        Ok((_, _, Some(h))) => h,
        _ => seq![],
    }
}

/// The domain that a crawl from an address stays on, if the address may be fetched.
pub fn site_of(addr: &str) -> (r: Result<String, UrlError>)
    ensures
        match address::refusal(addr@) {
            Some(e) => r matches Err(x) && x@ == e,
            None => r matches Ok(d) && d@ == domain_of(addr@),
        },
{
    match url::parse(addr) {
        Ok(u) => match address::check(&u) {
            Ok(_) => match u.host {
                Some(h) => Ok(h),
                None => Ok(String::new()),
            },
            Err(e) => Err(e),
        },
        Err(m) => Err(UrlError::Invalid(m)),
    }
}

/// The terms that links should be about.
pub open spec fn link_terms(focus: Option<&str>) -> Seq<Seq<char>> {
    match focus {
        Some(q) => text::words(unicode::lowercase(q@)),
        None => seq![],
    }
}

/// The state of a crawl that follows links from its start.
pub open spec fn setting_out(
    start: Seq<char>,
    domain: Seq<char>,
    limits: Limits,
    terms: Seq<Seq<char>>,
) -> CrawlView {
    CrawlView {
        mode: Mode::Follow,
        domain,
        limits,
        terms,
        visited: seq![address::normal(start)],
        queue: seq![(start, 0)],
        pages: seq![],
        total_chars: 0,
        done: false,
    }
}

/// The state of a crawl that goes through listed pages.
pub open spec fn going_through(
    listed: Seq<Seq<char>>,
    domain: Seq<char>,
    limits: Limits,
    terms: Seq<Seq<char>>,
) -> CrawlView {
    let some = text::first(listed, limits.max_pages as int);
    CrawlView {
        mode: Mode::Listed,
        domain,
        limits,
        terms,
        visited: seq![],
        queue: Seq::new(some.len(), |i: int| (some[i], 0)),
        pages: seq![],
        total_chars: 0,
        done: false,
    }
}

/// How a crawl goes on once the site maps were read.
pub enum Plan {
    /// There is nothing to fetch.
    Finished(CrawlResult),
    Go(Crawl),
}

/// The first `n` texts of a list.
fn first_texts(list: &[String], n: usize) -> (r: Vec<String>)
    ensures
        text::views(r@) == text::first(text::views(list@), n as int),
{
    let ghost all = text::views(list@);
    let mut r: Vec<String> = Vec::new();
    let mut i: usize = 0;
    while i < list.len() && i < n
        invariant
            i <= list@.len(),
            i <= n,
            all == text::views(list@),
            text::views(r@) == all.take(i as int),
        decreases list@.len() - i,
    {
        let ghost before = text::views(r@);
        r.push(list[i].clone());
        assert(text::views(r@) =~= before.push(all[i as int]));
        i += 1;
    }
    r
}

/// The addresses that a crawl knows before anything is fetched: those that site maps list, or
/// else its start.
pub open spec fn known(start: Seq<char>, listed: Seq<Seq<char>>) -> Seq<Seq<char>> {
    if listed.len() == 0 {
        seq![address::normal(start)]
    } else {
        listed
    }
}

/// Plans a crawl. The pages that site maps list come first where there are any; without them
/// the crawl follows links from its start. Where only addresses are asked for, nothing is
/// fetched.
pub fn plan(
    start: &str,
    domain: String,
    limits: Limits,
    focus: Option<&str>,
    discover_only: bool,
    listed: &[String],
) -> (r: Plan)
    ensures
        if discover_only {
            r matches Plan::Finished(a) && a.start_url@ == start@ && a.pages@.len() == 0
                && text::views(a.visited@) == text::first(
                known(start@, text::views(listed@)),
                limits.max_pages as int,
            ) && a.visited@.len() <= limits.max_pages && a.total_chars == 0
        } else if listed@.len() == 0 {
            r matches Plan::Go(c) && c@ == setting_out(
                start@,
                domain@,
                limits,
                link_terms(focus),
            )
        } else {
            r matches Plan::Go(c) && c@ == going_through(
                text::views(listed@),
                domain@,
                limits,
                link_terms(focus),
            )
        },
{
    let terms = match focus {
        Some(q) => text::split_words(unicode::to_lowercase(q).as_str()),
        None => Vec::new(),
    };
    assert(text::views(terms@) =~= link_terms(focus));
    if discover_only {
        let visited = if listed.len() == 0 {
            let mut only: Vec<String> = Vec::new();
            only.push(address::normalize_url(start));
            assert(text::views(only@) =~= seq![address::normal(start@)]);
            first_texts(&only, limits.max_pages)
        } else {
            first_texts(listed, limits.max_pages)
        };
        assert(text::views(visited@).len() == visited@.len());
        return Plan::Finished(
            CrawlResult { start_url: start.to_owned(), pages: Vec::new(), visited, total_chars: 0 },
        );
    }
    if listed.len() == 0 {
        let mut visited: Vec<String> = Vec::new();
        visited.push(address::normalize_url(start));
        let mut queue: Vec<(String, usize)> = Vec::new();
        queue.push((start.to_owned(), 0));
        let c = Crawl {
            mode: Mode::Follow,
            domain,
            limits,
            terms,
            visited,
            queue,
            pages: Vec::new(),
            total_chars: 0,
            done: false,
        };
        assert(c@.visited =~= seq![address::normal(start@)]);
        assert(c@.queue =~= seq![(start@, 0nat)]);
        assert(c@.pages =~= Seq::empty());
        return Plan::Go(c);
    }
    let some = first_texts(listed, limits.max_pages);
    let ghost s = text::views(some@);
    let mut queue: Vec<(String, usize)> = Vec::new();
    let mut i: usize = 0;
    while i < some.len()
        invariant
            i <= some@.len(),
            s == text::views(some@),
            queue_views(queue@) == Seq::new(i as nat, |j: int| (s[j], 0nat)),
        decreases some@.len() - i,
    {
        let ghost before = queue_views(queue@);
        queue.push((some[i].clone(), 0));
        assert(queue_views(queue@) =~= before.push((s[i as int], 0nat)));
        i += 1;
    }
    let c = Crawl {
        mode: Mode::Listed,
        domain,
        limits,
        terms,
        visited: Vec::new(),
        queue,
        pages: Vec::new(),
        total_chars: 0,
        done: false,
    };
    assert(c@.visited =~= Seq::empty());
    assert(c@.pages =~= Seq::empty());
    assert(c@ == going_through(text::views(listed@), domain@, limits, link_terms(focus)));
    Plan::Go(c)
}

impl Crawl {
    /// How many characters of markdown were read so far.
    pub fn read_so_far(&self) -> (r: usize)
        ensures
            r == self@.total_chars,
    {
        self.total_chars
    }

    /// What the crawl answers: its pages and the normal forms of the addresses seen.
    pub fn into_result(self, start: &str) -> (r: CrawlResult)
        ensures
            r.start_url@ == start@,
            answer::result_views(r.pages@) == self@.pages,
            text::views(r.visited@) == self@.visited,
            r.total_chars == self@.total_chars,
    {
        CrawlResult {
            start_url: start.to_owned(),
            pages: self.pages,
            visited: self.visited,
            total_chars: self.total_chars,
        }
    }
}

// ── Laws ────────────────────────────────────────────────────────────────────

/// The normal forms of the addresses of a queue.
pub open spec fn normals(q: Seq<(Seq<char>, nat)>) -> Seq<Seq<char>> {
    Seq::new(q.len(), |i: int| address::normal(q[i].0))
}

/// An address of the queue may be handed out: it is the start or a page of the site, no
/// further from the start than allowed, and noted as seen.
pub open spec fn proper(v: CrawlView, start: Seq<char>, entry: (Seq<char>, nat)) -> bool {
    if v.mode == Mode::Listed {
        sitemap::listed_page(entry.0, v.domain)
    } else {
        &&& entry.0 == start || on_site(entry.0, v.domain)
        &&& entry.1 <= v.limits.max_depth
        &&& v.visited.contains(address::normal(entry.0))
    }
}

/// How many characters the pages of a list have together.
pub open spec fn total_of(pages: Seq<ResultView>) -> nat
    decreases pages.len(),
{
    if pages.len() == 0 {
        0
    } else {
        total_of(pages.drop_last()) + pages.last().markdown.len()
    }
}

/// What holds of every crawl on its way: nothing was seen twice, every address of the queue
/// may be handed out and none is there twice, there are no more pages than allowed, what was
/// read is what the pages have together, and where that is more than allowed the crawl has
/// ended, and without its last page it was not.
pub open spec fn sound(v: CrawlView, start: Seq<char>) -> bool {
    &&& v.visited.no_duplicates()
    &&& forall|i: int| 0 <= i < v.queue.len() ==> proper(v, start, #[trigger] v.queue[i])
    &&& v.mode != Mode::Listed ==> normals(v.queue).no_duplicates()
    &&& v.pages.len() <= v.limits.max_pages
    &&& v.total_chars == total_of(v.pages)
    &&& exceeded(v) ==> v.done
    &&& v.limits.max_total_chars matches Some(limit) ==> forall|k: int|
        0 <= k < v.pages.len() ==> total_of(#[trigger] v.pages.take(k)) <= limit
}

/// A crawl that sets out from its start is sound.
pub proof fn setting_out_is_sound(
    start: Seq<char>,
    domain: Seq<char>,
    limits: Limits,
    terms: Seq<Seq<char>>,
)
    ensures
        sound(setting_out(start, domain, limits, terms), start),
{
    let v = setting_out(start, domain, limits, terms);
    assert(v.visited[0] == address::normal(start));
}

/// A crawl through pages that are of the domain is sound.
pub proof fn going_through_is_sound(
    listed: Seq<Seq<char>>,
    domain: Seq<char>,
    limits: Limits,
    terms: Seq<Seq<char>>,
    start: Seq<char>,
)
    requires
        forall|i: int|
            0 <= i < listed.len() ==> sitemap::listed_page(#[trigger] listed[i], domain),
    ensures
        sound(going_through(listed, domain, limits, terms), start),
{
    let v = going_through(listed, domain, limits, terms);
    assert forall|i: int| 0 <= i < v.queue.len() implies proper(v, start, #[trigger] v.queue[i]) by {
        assert(v.queue[i].0 == listed[i]);
    }
}

proof fn lemma_drop_first(v: CrawlView, start: Seq<char>)
    requires
        sound(v, start),
        v.queue.len() > 0,
    ensures
        sound(CrawlView { queue: v.queue.drop_first(), ..v }, start),
        v.mode != Mode::Listed ==> !normals(v.queue.drop_first()).contains(
            address::normal(v.queue[0].0),
        ),
{
    let w = CrawlView { queue: v.queue.drop_first(), ..v };
    assert forall|i: int| 0 <= i < w.queue.len() implies proper(w, start, #[trigger] w.queue[i]) by {
        assert(w.queue[i] == v.queue[i + 1]);
        assert(proper(v, start, v.queue[i + 1]));
    }
    let a = normals(v.queue);
    let b = normals(w.queue);
    assert forall|i: int| 0 <= i < b.len() implies #[trigger] b[i] == a[i + 1] by {}
    if v.mode != Mode::Listed {
        assert(b.no_duplicates());
        if b.contains(a[0]) {
            let k = b.index_of(a[0]);
            assert(a[k + 1] == a[0]);
        }
    }
}

/// What is handed out next is the start or a page of the domain, no further from the start
/// than allowed, and handed out only while there is room for it. The crawl stays sound.
pub proof fn handed_out_pages_are_proper(v: CrawlView, start: Seq<char>)
    requires
        sound(v, start),
    ensures
        ({
            let (next, w) = upcoming(v);
            &&& sound(w, start)
            &&& w.mode == v.mode && w.limits == v.limits && w.domain == v.domain
            &&& next matches Some((addr, depth)) ==> {
                &&& !full(w) && !w.done
                &&& w.visited.contains(address::normal(addr))
                &&& if v.mode == Mode::Listed {
                    sitemap::listed_page(addr, v.domain)
                } else {
                    &&& addr == start || on_site(addr, v.domain)
                    &&& depth <= v.limits.max_depth
                    &&& !normals(w.queue).contains(address::normal(addr))
                }
            }
        }),
    decreases v.queue.len(),
{
    if !v.done && v.queue.len() > 0 {
        let (addr, depth) = v.queue[0];
        let norm = address::normal(addr);
        let w = CrawlView { queue: v.queue.drop_first(), ..v };
        lemma_drop_first(v, start);
        assert(proper(v, start, v.queue[0]));
        if v.mode == Mode::Listed {
            if v.visited.contains(norm) {
                handed_out_pages_are_proper(w, start);
            } else {
                let x = CrawlView { visited: v.visited.push(norm), ..w };
                assert(x.visited[v.visited.len() as int] == norm);
                assert forall|i: int| 0 <= i < x.queue.len() implies proper(
                    x,
                    start,
                    #[trigger] x.queue[i],
                ) by {
                    assert(proper(w, start, w.queue[i]));
                }
                assert(sound(x, start));
                assert(sound(CrawlView { done: true, ..x }, start)) by {
                    let y = CrawlView { done: true, ..x };
                    assert forall|i: int| 0 <= i < y.queue.len() implies proper(
                        y,
                        start,
                        #[trigger] y.queue[i],
                    ) by {
                        assert(proper(x, start, x.queue[i]));
                    }
                }
            }
        } else if !full(v) && depth > v.limits.max_depth {
            handed_out_pages_are_proper(w, start);
        } else {
            lemma_done(w, start);
        }
        if v.mode == Mode::Listed {
            lemma_done(w, start);
        }
    } else {
        lemma_done(v, start);
    }
}

/// Ending a crawl keeps it sound.
proof fn lemma_done(v: CrawlView, start: Seq<char>)
    requires
        sound(v, start),
    ensures
        sound(CrawlView { done: true, ..v }, start),
{
    let y = CrawlView { done: true, ..v };
    assert forall|i: int| 0 <= i < y.queue.len() implies proper(y, start, #[trigger] y.queue[i]) by {
        assert(proper(v, start, v.queue[i]));
    }
}

/// Adding an address keeps a crawl sound.
proof fn lemma_admitted(v: CrawlView, start: Seq<char>, href: Seq<char>, depth: nat)
    requires
        sound(v, start),
        v.mode != Mode::Listed,
        on_site(href, v.domain),
        depth <= v.limits.max_depth,
    ensures
        sound(admitted(v, href, depth), start),
{
    let norm = address::normal(href);
    if !v.visited.contains(norm) {
        let w = admitted(v, href, depth);
        assert(w.visited[v.visited.len() as int] == norm);
        assert forall|i: int| 0 <= i < w.queue.len() implies proper(
            w,
            start,
            #[trigger] w.queue[i],
        ) by {
            if i < v.queue.len() {
                assert(w.queue[i] == v.queue[i]);
                assert(proper(v, start, v.queue[i]));
                let n = address::normal(v.queue[i].0);
                assert(w.visited[v.visited.index_of(n)] == n);
            }
        }
        let a = normals(v.queue);
        let b = normals(w.queue);
        assert(b =~= a.push(norm));
        assert(!a.contains(norm)) by {
            if a.contains(norm) {
                let k = a.index_of(norm);
                assert(proper(v, start, v.queue[k]));
            }
        }
    }
}

proof fn lemma_all_admitted(v: CrawlView, start: Seq<char>, hrefs: Seq<Seq<char>>, depth: nat)
    requires
        sound(v, start),
        v.mode == Mode::Follow,
        depth <= v.limits.max_depth,
        forall|i: int| 0 <= i < hrefs.len() ==> on_site(#[trigger] hrefs[i], v.domain),
    ensures
        sound(all_admitted(v, hrefs, depth), start),
    decreases hrefs.len(),
{
    if hrefs.len() > 0 {
        let rest = hrefs.drop_last();
        assert forall|i: int| 0 <= i < rest.len() implies on_site(#[trigger] rest[i], v.domain) by {
            assert(rest[i] == hrefs[i]);
        }
        lemma_all_admitted(v, start, rest, depth);
        lemma_admitted_frame(v, rest, depth);
        assert(on_site(hrefs[hrefs.len() - 1], v.domain));
        lemma_admitted(all_admitted(v, rest, depth), start, hrefs.last(), depth);
    }
}

proof fn lemma_prospects(
    links: Seq<(Seq<char>, Seq<char>)>,
    visited: Seq<Seq<char>>,
    domain: Seq<char>,
    terms: Seq<Seq<char>>,
)
    ensures
        ({
            let (scores, hrefs) = prospects(links, visited, domain, terms);
            &&& scores.len() == hrefs.len()
            &&& forall|i: int| 0 <= i < hrefs.len() ==> on_site(#[trigger] hrefs[i], domain)
        }),
    decreases links.len(),
{
    if links.len() > 0 {
        lemma_prospects(links.drop_last(), visited, domain, terms);
    }
}

/// The links followed are at most ten, and each of them leads to a page of the site.
pub proof fn few_links_are_followed(
    links: Seq<(Seq<char>, Seq<char>)>,
    visited: Seq<Seq<char>>,
    domain: Seq<char>,
    terms: Seq<Seq<char>>,
)
    ensures
        promising(links, visited, domain, terms).len() <= 10,
        forall|i: int|
            0 <= i < promising(links, visited, domain, terms).len() ==> on_site(
                #[trigger] promising(links, visited, domain, terms)[i],
                domain,
            ),
{
    let (scores, hrefs) = prospects(links, visited, domain, terms);
    let best = text::first(order::ranking(scores), 10);
    lemma_prospects(links, visited, domain, terms);
    order::ranking_is_best_first(scores, scores.len() as int);
    assert forall|i: int| 0 <= i < promising(links, visited, domain, terms).len() implies on_site(
        #[trigger] promising(links, visited, domain, terms)[i],
        domain,
    ) by {
        assert(best[i] == order::ranking(scores)[i]);
        assert(on_site(hrefs[best[i]], domain));
    }
}

/// Taking a page that was handed out keeps the crawl sound: it never has more pages than
/// allowed, and only its last page passes the limit of what may be read.
pub proof fn taking_a_page_is_sound(v: CrawlView, start: Seq<char>, depth: nat, page: ResultView)
    requires
        sound(v, start),
        !full(v),
        !v.done,
    ensures
        sound(taken(v, depth, page), start),
{
    let u = CrawlView { total_chars: v.total_chars + page.markdown.len(), ..v };
    let hrefs = promising(page.links, v.visited, v.domain, v.terms);
    let follows = v.mode == Mode::Follow && depth < v.limits.max_depth && !full(u) && !exceeded(u);
    let w = if follows {
        all_admitted(v, hrefs, depth + 1)
    } else {
        v
    };
    if follows {
        few_links_are_followed(page.links, v.visited, v.domain, v.terms);
        lemma_all_admitted(v, start, hrefs, depth + 1);
        lemma_admitted_frame(v, hrefs, depth + 1);
        lemma_admitted_frame(u, hrefs, depth + 1);
        lemma_admitted_alike(v, u, hrefs, depth + 1);
    }
    let y = taken(v, depth, page);
    assert(y.queue == w.queue && y.visited == w.visited);
    assert forall|i: int| 0 <= i < y.queue.len() implies proper(y, start, #[trigger] y.queue[i]) by {
        assert(proper(w, start, w.queue[i]));
    }
    assert(y.pages == v.pages.push(page));
    assert(y.pages.drop_last() =~= v.pages);
    if let Some(limit) = v.limits.max_total_chars {
        assert forall|k: int| 0 <= k < y.pages.len() implies total_of(#[trigger] y.pages.take(k))
            <= limit by {
            if k < v.pages.len() {
                assert(y.pages.take(k) =~= v.pages.take(k));
            } else {
                assert(y.pages.take(k) =~= v.pages);
            }
        }
    }
}

/// What is added does not depend on how much was read.
proof fn lemma_admitted_alike(v: CrawlView, u: CrawlView, hrefs: Seq<Seq<char>>, depth: nat)
    requires
        v.visited == u.visited,
        v.queue == u.queue,
    ensures
        all_admitted(v, hrefs, depth).visited == all_admitted(u, hrefs, depth).visited,
        all_admitted(v, hrefs, depth).queue == all_admitted(u, hrefs, depth).queue,
    decreases hrefs.len(),
{
    if hrefs.len() > 0 {
        lemma_admitted_alike(v, u, hrefs.drop_last(), depth);
    }
}

/// What a sound crawl has read is the sum of what its pages have, and its pages but the last
/// one have together no more than may be read.
pub proof fn only_the_last_page_passes_the_limit(v: CrawlView, start: Seq<char>)
    requires
        sound(v, start),
        v.pages.len() > 0,
    ensures
        v.total_chars == total_of(v.pages),
        v.limits.max_total_chars matches Some(limit) ==> total_of(v.pages.drop_last()) <= limit,
{
    assert(v.pages.take(v.pages.len() - 1) =~= v.pages.drop_last());
}

/// A crawl that has read more than it may hands out nothing any more.
pub proof fn nothing_follows_beyond_the_limit(v: CrawlView, start: Seq<char>)
    requires
        sound(v, start),
        exceeded(v),
    ensures
        upcoming(v).0 is None,
{
}

/// The addresses of the queue are `d` or one more links away from the start, and those further
/// away come behind the others.
pub open spec fn level(v: CrawlView, d: nat) -> bool {
    &&& forall|i: int| 0 <= i < v.queue.len() ==> d <= (#[trigger] v.queue[i]).1 <= d + 1
    &&& forall|i: int, j: int|
        0 <= i < j < v.queue.len() ==> (#[trigger] v.queue[i]).1 <= (#[trigger] v.queue[j]).1
}

/// A crawl begins at the distance zero.
pub proof fn crawls_begin_at_the_start(
    start: Seq<char>,
    listed: Seq<Seq<char>>,
    domain: Seq<char>,
    limits: Limits,
    terms: Seq<Seq<char>>,
)
    ensures
        level(setting_out(start, domain, limits, terms), 0),
        level(going_through(listed, domain, limits, terms), 0),
{
}

/// Pages are handed out breadth first: the distance of what is handed out next is not smaller
/// than that of what was handed out before, and neither is that of anything still to come.
pub proof fn distances_never_decrease(v: CrawlView, d: nat)
    requires
        level(v, d),
    ensures
        upcoming(v).0 matches Some((_, depth)) ==> depth >= d && level(upcoming(v).1, depth),
    decreases v.queue.len(),
{
    if !v.done && v.queue.len() > 0 {
        let (addr, depth) = v.queue[0];
        let w = CrawlView { queue: v.queue.drop_first(), ..v };
        assert forall|i: int| 0 <= i < w.queue.len() implies depth <= (#[trigger] w.queue[i]).1
            <= depth + 1 by {
            assert(w.queue[i] == v.queue[i + 1]);
            assert(v.queue[0].1 <= v.queue[i + 1].1);
        }
        assert forall|i: int, j: int| 0 <= i < j < w.queue.len() implies (#[trigger] w.queue[i]).1
            <= (#[trigger] w.queue[j]).1 by {
            assert(w.queue[i] == v.queue[i + 1]);
            assert(w.queue[j] == v.queue[j + 1]);
        }
        assert(level(w, depth));
        if v.mode == Mode::Listed {
            if v.visited.contains(address::normal(addr)) {
                distances_never_decrease(w, depth);
            }
        } else if !full(v) && depth > v.limits.max_depth {
            distances_never_decrease(w, depth);
        }
    }
}

/// Taking a page that was handed out last keeps the order of the distances.
pub proof fn taking_a_page_keeps_distances(v: CrawlView, d: nat, page: ResultView)
    requires
        level(v, d),
    ensures
        level(taken(v, d, page), d),
{
    let w = CrawlView { total_chars: v.total_chars + page.markdown.len(), ..v };
    assert(level(w, d));
    lemma_level(w, d, promising(page.links, w.visited, w.domain, w.terms));
}

proof fn lemma_level(v: CrawlView, d: nat, hrefs: Seq<Seq<char>>)
    requires
        level(v, d),
    ensures
        level(all_admitted(v, hrefs, d + 1), d),
    decreases hrefs.len(),
{
    if hrefs.len() > 0 {
        lemma_level(v, d, hrefs.drop_last());
    }
}

/// A page that was handed out and is not waiting to be.
pub open spec fn spent(v: CrawlView, norm: Seq<char>) -> bool {
    v.visited.contains(norm) && (v.mode != Mode::Listed ==> !normals(v.queue).contains(norm))
}

proof fn lemma_spent_admitted(v: CrawlView, norm: Seq<char>, href: Seq<char>, depth: nat)
    requires
        spent(v, norm),
    ensures
        spent(admitted(v, href, depth), norm),
{
    if !v.visited.contains(address::normal(href)) {
        let w = admitted(v, href, depth);
        assert(w.visited[v.visited.index_of(norm)] == norm);
        assert(normals(w.queue) =~= normals(v.queue).push(address::normal(href)));
        if normals(w.queue).contains(norm) {
            let k = normals(w.queue).index_of(norm);
            if k < v.queue.len() {
                assert(normals(v.queue)[k] == norm);
            }
        }
    }
}

proof fn lemma_spent_all(v: CrawlView, norm: Seq<char>, hrefs: Seq<Seq<char>>, depth: nat)
    requires
        spent(v, norm),
    ensures
        spent(all_admitted(v, hrefs, depth), norm),
    decreases hrefs.len(),
{
    if hrefs.len() > 0 {
        lemma_spent_all(v, norm, hrefs.drop_last(), depth);
        lemma_spent_admitted(all_admitted(v, hrefs.drop_last(), depth), norm, hrefs.last(), depth);
    }
}

proof fn lemma_spent_next(v: CrawlView, norm: Seq<char>)
    requires
        spent(v, norm),
    ensures
        spent(upcoming(v).1, norm),
        upcoming(v).0 matches Some((addr, _)) ==> address::normal(addr) != norm,
    decreases v.queue.len(),
{
    if !v.done && v.queue.len() > 0 {
        let (addr, depth) = v.queue[0];
        let w = CrawlView { queue: v.queue.drop_first(), ..v };
        assert(normals(v.queue)[0] == address::normal(addr));
        assert(spent(w, norm)) by {
            if normals(w.queue).contains(norm) {
                let k = normals(w.queue).index_of(norm);
                assert(normals(v.queue)[k + 1] == norm);
            }
        }
        if v.mode == Mode::Listed {
            if v.visited.contains(address::normal(addr)) {
                lemma_spent_next(w, norm);
            } else {
                let x = CrawlView { visited: v.visited.push(address::normal(addr)), ..w };
                assert(x.visited[v.visited.index_of(norm)] == norm);
            }
        } else if !full(v) && depth > v.limits.max_depth {
            lemma_spent_next(w, norm);
        }
    }
}

/// No page is handed out twice: one that was is neither the next, nor becomes it through
/// whatever pages are taken on the way.
pub proof fn no_page_is_handed_out_twice(
    v: CrawlView,
    norm: Seq<char>,
    depth: nat,
    page: ResultView,
)
    requires
        spent(v, norm),
    ensures
        upcoming(v).0 matches Some((addr, _)) ==> address::normal(addr) != norm,
        spent(upcoming(v).1, norm),
        spent(taken(v, depth, page), norm),
{
    lemma_spent_next(v, norm);
    let w = CrawlView { total_chars: v.total_chars + page.markdown.len(), ..v };
    assert(spent(w, norm));
    lemma_spent_all(
        w,
        norm,
        promising(page.links, w.visited, w.domain, w.terms),
        depth + 1,
    );
}

/// A page that was just handed out is spent.
pub proof fn handing_out_spends(v: CrawlView, start: Seq<char>)
    requires
        sound(v, start),
    ensures
        upcoming(v).0 matches Some((addr, _)) ==> spent(upcoming(v).1, address::normal(addr)),
{
    handed_out_pages_are_proper(v, start);
}

// ── What a crawl must do ────────────────────────────────────────────────────

/// The positions of the links that lead to pages of the site not seen yet.
spec fn spots(
    links: Seq<(Seq<char>, Seq<char>)>,
    visited: Seq<Seq<char>>,
    domain: Seq<char>,
) -> Seq<int>
    decreases links.len(),
{
    if links.len() == 0 {
        seq![]
    } else {
        let rest = spots(links.drop_last(), visited, domain);
        if !visited.contains(address::normal(links.last().0)) && on_site(links.last().0, domain) {
            rest.push(links.len() - 1)
        } else {
            rest
        }
    }
}

proof fn lemma_spots(
    links: Seq<(Seq<char>, Seq<char>)>,
    visited: Seq<Seq<char>>,
    domain: Seq<char>,
    terms: Seq<Seq<char>>,
)
    ensures
        ({
            let at = spots(links, visited, domain);
            let (scores, hrefs) = prospects(links, visited, domain, terms);
            &&& at.len() == scores.len() == hrefs.len()
            &&& forall|k: int|
                0 <= k < at.len() ==> 0 <= #[trigger] at[k] < links.len() && {
                    let l = links[at[k]];
                    &&& !visited.contains(address::normal(l.0)) && on_site(l.0, domain)
                    &&& hrefs[k] == l.0
                    &&& scores[k] == closeness_of(unicode::lowercase(l.1), terms)
                }
            &&& forall|k: int, m: int| 0 <= k < m < at.len() ==> #[trigger] at[k] < #[trigger] at[m]
            &&& forall|i: int|
                0 <= i < links.len() && !visited.contains(
                    address::normal((#[trigger] links[i]).0),
                ) && on_site(links[i].0, domain) ==> at.contains(i)
        }),
    decreases links.len(),
{
    if links.len() > 0 {
        let less = links.drop_last();
        lemma_spots(less, visited, domain, terms);
        let rest = spots(less, visited, domain);
        let at = spots(links, visited, domain);
        assert forall|i: int|
            0 <= i < links.len() && !visited.contains(address::normal((#[trigger] links[i]).0))
                && on_site(links[i].0, domain) implies at.contains(i) by {
            if i < less.len() {
                assert(less[i] == links[i]);
                let k = rest.index_of(i);
                assert(at[k] == i);
            } else {
                assert(at.last() == i);
            }
        }
    }
}

/// The positions of the addresses that are added.
spec fn added(v: CrawlView, hrefs: Seq<Seq<char>>, depth: nat) -> Seq<int>
    decreases hrefs.len(),
{
    if hrefs.len() == 0 {
        seq![]
    } else {
        let rest = added(v, hrefs.drop_last(), depth);
        if all_admitted(v, hrefs.drop_last(), depth).visited.contains(
            address::normal(hrefs.last()),
        ) {
            rest
        } else {
            rest.push(hrefs.len() - 1)
        }
    }
}

proof fn lemma_added(v: CrawlView, hrefs: Seq<Seq<char>>, depth: nat)
    ensures
        ({
            let at = added(v, hrefs, depth);
            let w = all_admitted(v, hrefs, depth);
            &&& w.queue == v.queue + Seq::new(at.len(), |j: int| (hrefs[at[j]], depth))
            &&& w.visited == v.visited + Seq::new(at.len(), |j: int| address::normal(hrefs[at[j]]))
            &&& forall|j: int| 0 <= j < at.len() ==> 0 <= #[trigger] at[j] < hrefs.len()
            &&& forall|j: int, m: int| 0 <= j < m < at.len() ==> #[trigger] at[j] < #[trigger] at[m]
            &&& forall|k: int|
                0 <= k < hrefs.len() ==> w.visited.contains(address::normal(#[trigger] hrefs[k]))
            &&& hrefs.len() > 0 && !v.visited.contains(address::normal(hrefs[0])) ==> at.len() > 0
                && at[0] == 0
        }),
    decreases hrefs.len(),
{
    let at = added(v, hrefs, depth);
    let w = all_admitted(v, hrefs, depth);
    if hrefs.len() == 0 {
        assert(w.queue =~= v.queue + Seq::new(at.len(), |j: int| (hrefs[at[j]], depth)));
        assert(w.visited =~= v.visited + Seq::new(
            at.len(),
            |j: int| address::normal(hrefs[at[j]]),
        ));
    } else {
        let less = hrefs.drop_last();
        lemma_added(v, less, depth);
        let rest = added(v, less, depth);
        let u = all_admitted(v, less, depth);
        assert forall|j: int| 0 <= j < rest.len() implies less[#[trigger] rest[j]]
            == hrefs[rest[j]] by {}
        let q = Seq::new(rest.len(), |j: int| (less[rest[j]], depth));
        let q2 = Seq::new(rest.len(), |j: int| (hrefs[rest[j]], depth));
        assert(q =~= q2);
        let n = Seq::new(rest.len(), |j: int| address::normal(less[rest[j]]));
        let n2 = Seq::new(rest.len(), |j: int| address::normal(hrefs[rest[j]]));
        assert(n =~= n2);
        assert(w.queue =~= v.queue + Seq::new(at.len(), |j: int| (hrefs[at[j]], depth)));
        assert(w.visited =~= v.visited + Seq::new(
            at.len(),
            |j: int| address::normal(hrefs[at[j]]),
        ));
        assert forall|k: int| 0 <= k < hrefs.len() implies w.visited.contains(
            address::normal(#[trigger] hrefs[k]),
        ) by {
            if k < less.len() {
                assert(less[k] == hrefs[k]);
                let x = u.visited.index_of(address::normal(hrefs[k]));
                assert(w.visited[x] == u.visited[x]);
            } else if !u.visited.contains(address::normal(hrefs[k])) {
                assert(w.visited.last() == address::normal(hrefs[k]));
            }
        }
        if !v.visited.contains(address::normal(hrefs[0])) {
            if less.len() > 0 {
                assert(less[0] == hrefs[0]);
                assert(at[0] == rest[0]);
            } else {
                assert(u == v);
                assert(hrefs.last() == hrefs[0]);
            }
        }
    }
}

/// A page that was fetched within the limits has its links followed: each that leads, over the
/// web, to a page of the domain which is neither a document nor a picture nor a part of a page, and
/// which was not seen yet. If there are more than ten of them, those ten are followed whose texts
/// hold most of the terms, equal ones in the order of the page. They are put behind the queue,
/// closest first, one link further from the start, and noted as seen; only one of a page that
/// another of them already leads to is left out. Nothing else about the page makes a difference.
pub proof fn links_are_followed(v: CrawlView, depth: nat, page: ResultView) -> (r: (
    Seq<int>,
    Seq<int>,
))
    requires
        v.mode == Mode::Follow,
        depth < v.limits.max_depth,
        v.pages.len() < v.limits.max_pages,
        v.limits.max_total_chars matches Some(limit) ==> v.total_chars + page.markdown.len()
            <= limit,
    ensures
        ({
            let t = taken(v, depth, page);
            let l = page.links;
            let (sel, new) = r;
            &&& sel.len() <= 10
            &&& forall|k: int|
                0 <= k < sel.len() ==> 0 <= #[trigger] sel[k] < l.len() && ({
                    let href = l[sel[k]].0;
                    &&& !v.visited.contains(address::normal(href))
                    &&& url::url_parse(href) matches Ok(u) && u.2 == Some(v.domain) && (u.1
                        == "http"@ || u.1 == "https"@)
                    &&& !text::ends_with(href, ".pdf"@) && !text::ends_with(href, ".jpg"@)
                    &&& !text::ends_with(href, ".png"@) && !text::contains(href, "#"@)
                    &&& t.visited.contains(address::normal(href))
                })
            &&& forall|k: int, m: int|
                0 <= k < m < sel.len() ==> ({
                    let a = closeness_of(unicode::lowercase(l[#[trigger] sel[k]].1), v.terms);
                    let b = closeness_of(unicode::lowercase(l[#[trigger] sel[m]].1), v.terms);
                    a > b || (a == b && sel[k] < sel[m])
                })
            &&& forall|i: int|
                0 <= i < l.len() && !sel.contains(i) && ({
                    let href = (#[trigger] l[i]).0;
                    &&& !v.visited.contains(address::normal(href))
                    &&& url::url_parse(href) matches Ok(u) && u.2 == Some(v.domain) && (u.1
                        == "http"@ || u.1 == "https"@)
                    &&& !text::ends_with(href, ".pdf"@) && !text::ends_with(href, ".jpg"@)
                    &&& !text::ends_with(href, ".png"@) && !text::contains(href, "#"@)
                }) ==> sel.len() == 10 && forall|k: int|
                    0 <= k < sel.len() ==> ({
                        let a = closeness_of(unicode::lowercase(l[#[trigger] sel[k]].1), v.terms);
                        let b = closeness_of(unicode::lowercase(l[i].1), v.terms);
                        a > b || (a == b && sel[k] < i)
                    })
            &&& forall|j: int| 0 <= j < new.len() ==> 0 <= #[trigger] new[j] < sel.len()
            &&& forall|j: int, m: int|
                0 <= j < m < new.len() ==> #[trigger] new[j] < #[trigger] new[m]
            &&& sel.len() > 0 ==> new.len() > 0 && new[0] == 0
            &&& t.queue == v.queue + Seq::new(
                new.len(),
                |j: int| (l[sel[new[j]]].0, (depth + 1) as nat),
            )
            &&& t.visited == v.visited + Seq::new(
                new.len(),
                |j: int| address::normal(l[sel[new[j]]].0),
            )
        }),
{
    let t = taken(v, depth, page);
    let l = page.links;
    let w = CrawlView { total_chars: v.total_chars + page.markdown.len(), ..v };
    let (scores, hrefs) = prospects(l, v.visited, v.domain, v.terms);
    let at = spots(l, v.visited, v.domain);
    lemma_spots(l, v.visited, v.domain, v.terms);
    let ranked = order::ranking(scores);
    order::ranking_is_best_first(scores, scores.len() as int);
    text::first_items_are_the_beginning(ranked, 10);
    let best = text::first(ranked, 10);
    let chosen = promising(l, v.visited, v.domain, v.terms);
    let sel = Seq::new(best.len(), |k: int| at[best[k]]);
    assert forall|k: int| 0 <= k < best.len() implies {
        &&& 0 <= #[trigger] best[k] < at.len()
        &&& best[k] == ranked[k]
        &&& chosen[k] == l[at[best[k]]].0
        &&& sel[k] == at[best[k]]
    } by {
        assert(best[k] == ranked[k]);
    }
    let x = all_admitted(w, chosen, depth + 1);
    let new = added(w, chosen, depth + 1);
    lemma_added(w, chosen, depth + 1);
    assert(t.queue == x.queue && t.visited == x.visited);
    let qa = Seq::new(new.len(), |j: int| (chosen[new[j]], (depth + 1) as nat));
    let qb = Seq::new(new.len(), |j: int| (l[sel[new[j]]].0, (depth + 1) as nat));
    assert forall|j: int| 0 <= j < new.len() implies chosen[#[trigger] new[j]] == l[sel[new[j]]].0 by {
        let b = best[new[j]];
    }
    assert(qa =~= qb);
    let na = Seq::new(new.len(), |j: int| address::normal(chosen[new[j]]));
    let nb = Seq::new(new.len(), |j: int| address::normal(l[sel[new[j]]].0));
    assert(na =~= nb);
    assert forall|k: int| 0 <= k < sel.len() implies 0 <= #[trigger] sel[k] < l.len()
        && !v.visited.contains(address::normal(l[sel[k]].0)) && on_site(l[sel[k]].0, v.domain)
        && t.visited.contains(address::normal(l[sel[k]].0)) by {
        let b = best[k];
        assert(sel[k] == at[b]);
        assert(chosen[k] == l[sel[k]].0);
    }
    assert forall|k: int, m: int| 0 <= k < m < sel.len() implies ({
        let a = closeness_of(unicode::lowercase(l[#[trigger] sel[k]].1), v.terms);
        let b = closeness_of(unicode::lowercase(l[#[trigger] sel[m]].1), v.terms);
        a > b || (a == b && sel[k] < sel[m])
    }) by {
        let (p, q) = (best[k], best[m]);
        assert(order::ahead(scores, ranked[k], ranked[m]));
        assert(sel[k] == at[p] && sel[m] == at[q]);
        assert(at[p] < l.len() && at[q] < l.len());
    }
    assert forall|i: int|
        0 <= i < l.len() && !sel.contains(i) && !v.visited.contains(
            address::normal((#[trigger] l[i]).0),
        ) && on_site(l[i].0, v.domain) implies sel.len() == 10 && forall|k: int|
        0 <= k < sel.len() ==> ({
            let a = closeness_of(unicode::lowercase(l[#[trigger] sel[k]].1), v.terms);
            let b = closeness_of(unicode::lowercase(l[i].1), v.terms);
            a > b || (a == b && sel[k] < i)
        }) by {
        let y = at.index_of(i);
        assert(ranked.contains(y));
        let z = ranked.index_of(y);
        if z < best.len() {
            assert(best[z] == y);
            assert(sel[z] == i);
            assert(false);
        }
        assert forall|k: int| 0 <= k < sel.len() implies ({
            let a = closeness_of(unicode::lowercase(l[#[trigger] sel[k]].1), v.terms);
            let b = closeness_of(unicode::lowercase(l[i].1), v.terms);
            a > b || (a == b && sel[k] < i)
        }) by {
            let p = best[k];
            assert(order::ahead(scores, ranked[k], ranked[z]));
            assert(sel[k] == at[p]);
            assert(at[p] < l.len());
        }
    }
    if sel.len() > 0 {
        assert(sel[0] == at[best[0]]);
        assert(chosen[0] == l[sel[0]].0);
    }
    (sel, new)
}

/// At the greatest distance, once there are enough pages, once too much was read, and where the
/// pages are listed by a site map, no link is followed.
pub proof fn links_beyond_the_limits_are_not_followed(v: CrawlView, depth: nat, page: ResultView)
    requires
        v.mode == Mode::Listed || depth >= v.limits.max_depth || v.pages.len() >= v.limits.max_pages
            || (v.limits.max_total_chars matches Some(limit) && v.total_chars + page.markdown.len()
            > limit),
    ensures
        taken(v, depth, page).queue == v.queue,
        taken(v, depth, page).visited == v.visited,
{
}

/// A page that is taken is answered, behind the others and as it is, and its characters are added
/// to what was read. The crawl goes on unless that is more than it may read; its domain, its
/// limits and what it is about stay the same.
pub proof fn pages_taken_are_answered(v: CrawlView, depth: nat, page: ResultView)
    ensures
        ({
            let t = taken(v, depth, page);
            &&& t.pages == v.pages.push(page)
            &&& t.total_chars == v.total_chars + page.markdown.len()
            &&& v.limits.max_total_chars is None ==> t.done == v.done
            &&& v.limits.max_total_chars matches Some(limit) ==> t.done == (v.done || t.total_chars
                > limit)
            &&& t.domain == v.domain && t.limits == v.limits && t.terms == v.terms && t.mode
                == v.mode
        }),
{
    let w = CrawlView { total_chars: v.total_chars + page.markdown.len(), ..v };
    lemma_admitted_frame(w, promising(page.links, w.visited, w.domain, w.terms), depth + 1);
}

/// The first address of the queue is handed out next, if there is room for its page and it is not
/// too far from the start, and nothing but the queue changes; of the pages that a site map lists,
/// if it was not seen, and it is noted as seen.
pub proof fn the_first_in_line_is_next(v: CrawlView)
    requires
        !v.done,
        v.queue.len() > 0,
        v.pages.len() < v.limits.max_pages,
    ensures
        v.mode == Mode::Follow && v.queue[0].1 <= v.limits.max_depth ==> upcoming(v) == (
            Some(v.queue[0]),
            CrawlView { queue: v.queue.drop_first(), ..v },
        ),
        v.mode == Mode::Listed && !v.visited.contains(address::normal(v.queue[0].0)) ==> upcoming(v)
            == (
            Some(v.queue[0]),
            CrawlView {
                queue: v.queue.drop_first(),
                visited: v.visited.push(address::normal(v.queue[0].0)),
                ..v
            },
        ),
        v.mode == Mode::Follow && v.queue[0].1 > v.limits.max_depth ==> upcoming(v) == upcoming(
            CrawlView { queue: v.queue.drop_first(), ..v },
        ),
        v.mode == Mode::Listed && v.visited.contains(address::normal(v.queue[0].0)) ==> upcoming(v)
            == upcoming(CrawlView { queue: v.queue.drop_first(), ..v }),
{
}

/// A crawl that hands out nothing any more was ended, has enough pages, or has no address left
/// that may be handed out.
pub proof fn crawls_end_for_a_reason(v: CrawlView)
    requires
        upcoming(v).0 is None,
    ensures
        v.done || v.pages.len() >= v.limits.max_pages || forall|i: int|
            0 <= i < v.queue.len() ==> {
                ||| v.mode == Mode::Follow && (#[trigger] v.queue[i]).1 > v.limits.max_depth
                ||| v.mode == Mode::Listed && v.visited.contains(address::normal(v.queue[i].0))
            },
    decreases v.queue.len(),
{
    if !v.done && v.pages.len() < v.limits.max_pages && v.queue.len() > 0 {
        let w = CrawlView { queue: v.queue.drop_first(), ..v };
        crawls_end_for_a_reason(w);
        assert forall|i: int| 0 <= i < v.queue.len() implies {
            ||| v.mode == Mode::Follow && (#[trigger] v.queue[i]).1 > v.limits.max_depth
            ||| v.mode == Mode::Listed && v.visited.contains(address::normal(v.queue[i].0))
        } by {
            if i > 0 {
                assert(w.queue[i - 1] == v.queue[i]);
            }
        }
    }
}

/// A crawl that sets out hands out its start first, at no distance, whatever the limits, as long
/// as a page may be fetched at all.
pub proof fn the_start_comes_first(
    start: Seq<char>,
    domain: Seq<char>,
    limits: Limits,
    terms: Seq<Seq<char>>,
)
    requires
        limits.max_pages > 0,
    ensures
        ({
            let v = setting_out(start, domain, limits, terms);
            &&& upcoming(v).0 == Some((start, 0nat))
            &&& v.visited == seq![address::normal(start)]
            &&& v.mode == Mode::Follow && v.pages.len() == 0 && v.total_chars == 0 && !v.done
            &&& v.domain == domain && v.limits == limits && v.terms == terms
        }),
{
}

/// A crawl of listed pages has them in its queue, in their order, as many as there may be pages;
/// and none of them is left out for another reason.
pub proof fn listed_pages_are_gone_through(
    listed: Seq<Seq<char>>,
    domain: Seq<char>,
    limits: Limits,
    terms: Seq<Seq<char>>,
    i: int,
)
    requires
        0 <= i < listed.len(),
        i < limits.max_pages,
    ensures
        ({
            let v = going_through(listed, domain, limits, terms);
            &&& i < v.queue.len() && v.queue[i] == (listed[i], 0nat)
            &&& v.queue.len() <= limits.max_pages
            &&& v.mode == Mode::Listed && v.visited.len() == 0 && v.pages.len() == 0 && !v.done
            &&& v.total_chars == 0 && v.domain == domain && v.limits == limits && v.terms == terms
        }),
{
    text::first_items_are_the_beginning(listed, limits.max_pages as int);
}

/// What a crawl is about are the words of the query in lower case.
pub proof fn crawls_are_about_the_words(focus: Option<&str>)
    ensures
        focus is None ==> link_terms(focus).len() == 0,
        focus matches Some(q) ==> link_terms(focus) == text::words(unicode::lowercase(q@)),
{
}

/// Each further term that stands in the text of a link brings it one closer, and no other does.
pub proof fn terms_bring_links_closer(lower: Seq<char>, terms: Seq<Seq<char>>, term: Seq<char>)
    ensures
        text::contains(lower, term) ==> closeness_of(lower, terms.push(term)) == closeness_of(
            lower,
            terms,
        ) + 1,
        !text::contains(lower, term) ==> closeness_of(lower, terms.push(term)) == closeness_of(
            lower,
            terms,
        ),
        closeness_of(lower, Seq::<Seq<char>>::empty()) == 0,
{
    assert(terms.push(term).drop_last() =~= terms);
}

/// Before anything is fetched, the addresses that site maps list are known, and else the start.
pub proof fn known_addresses(start: Seq<char>, listed: Seq<Seq<char>>)
    ensures
        listed.len() > 0 ==> known(start, listed) == listed,
        listed.len() == 0 ==> known(start, listed) == seq![address::normal(start)],
{
}

/// A crawl stays on the host of its start.
pub proof fn crawls_stay_on_the_host(
    addr: Seq<char>,
    u: (Seq<char>, Seq<char>, Option<Seq<char>>),
)
    requires
        url::url_parse(addr) == Ok::<(Seq<char>, Seq<char>, Option<Seq<char>>), Seq<char>>(u),
    ensures
        u.2 matches Some(h) ==> domain_of(addr) == h,
        u.2 is None ==> domain_of(addr).len() == 0,
{
}

} // verus!
