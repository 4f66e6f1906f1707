//! What can be asked for, and the defaults and limits that apply.

use crate::answer::Extent;
use crate::text;
use vstd::prelude::*;

verus! {

/// Something to do in the browser before the page is read.
#[derive(Debug)]
pub enum Action {
    /// Click the element that a selector finds.
    Click(String),
    /// Type a text into the element that a selector finds.
    Fill { selector: String, text: String },
    /// Press a key.
    Press(String),
    /// Wait for some milliseconds.
    Wait(u64),
    /// Scroll down by some pixels.
    Scroll(u32),
}

/// The contents of an action.
pub enum ActionView {
    Click(Seq<char>),
    Fill(Seq<char>, Seq<char>),
    Press(Seq<char>),
    Wait(nat),
    Scroll(nat),
}

impl View for Action {
    type V = ActionView;

    open spec fn view(&self) -> ActionView {
        match *self {
            Action::Click(s) => ActionView::Click(s@),
            Action::Fill { selector, text } => ActionView::Fill(selector@, text@),
            Action::Press(k) => ActionView::Press(k@),
            Action::Wait(ms) => ActionView::Wait(ms as nat),
            Action::Scroll(px) => ActionView::Scroll(px as nat),
        }
    }
}

/// The actions behind a list.
pub open spec fn action_views(v: Seq<Action>) -> Seq<ActionView> {
    Seq::new(v.len(), |i: int| v[i]@)
}

impl Clone for Action {
    fn clone(&self) -> (r: Action)
        ensures
            r == *self,
    {
        match self {
            Action::Click(s) => Action::Click(s.clone()),
            Action::Fill { selector, text } => Action::Fill {
                selector: selector.clone(),
                text: text.clone(),
            },
            Action::Press(k) => Action::Press(k.clone()),
            Action::Wait(ms) => Action::Wait(*ms),
            Action::Scroll(px) => Action::Scroll(*px),
        }
    }
}

/// A copy of an optional list of actions.
fn copy_actions(actions: &Option<Vec<Action>>) -> (r: Option<Vec<Action>>)
    ensures
        match (r, *actions) {
            (Some(a), Some(b)) => a@ == b@,
            (None, None) => true,
            _ => false,
        },
{
    match actions {
        Some(list) => {
            let mut r: Vec<Action> = Vec::new();
            let mut i: usize = 0;
            while i < list.len()
                invariant
                    i <= list@.len(),
                    r@ == list@.take(i as int),
                decreases list@.len() - i,
            {
                r.push(list[i].clone());
                i += 1;
            }
            Some(r)
        },
        None => None,
    }
}

/// The rarer options of scraping a page.
#[derive(Debug)]
pub struct ScrapeOptions {
    /// List image URLs.
    pub include_media: Option<bool>,
    /// What to do in the browser before the page is read.
    pub actions: Option<Vec<Action>>,
    /// Page range of a PDF, such as `1-3`.
    pub pages: Option<String>,
}

/// A page to scrape.
#[derive(Debug)]
pub struct ScrapeRequest {
    /// Absolute URL of the page.
    pub url: String,
    /// Answer only with the paragraphs that are about this.
    pub focus: Option<String>,
    /// How much markdown to answer with.
    pub max_chars: Option<usize>,
    /// List the links of the page.
    pub include_links: Option<bool>,
    /// Where in the markdown to start.
    pub offset: Option<usize>,
    /// As in the options, which go before.
    pub include_media: Option<bool>,
    /// As in the options, which go before.
    pub actions: Option<Vec<Action>>,
    /// As in the options, which go before.
    pub pages: Option<String>,
    pub options: Option<ScrapeOptions>,
}

/// Several pages to scrape.
#[derive(Debug)]
pub struct ScrapeBatchRequest {
    pub urls: Vec<String>,
    pub focus: Option<String>,
    pub max_chars: Option<usize>,
}

/// A site to crawl.
#[derive(Debug)]
pub struct CrawlRequest {
    /// Where to start; the crawl stays on this domain.
    pub url: String,
    pub max_pages: Option<usize>,
    pub max_depth: Option<usize>,
    /// Prefer pages that are about this.
    pub focus: Option<String>,
    pub max_chars: Option<usize>,
    /// Start from the pages that the site map lists.
    pub sitemap: Option<bool>,
    /// Answer with the addresses that would be visited, without fetching their content.
    pub discover_only: Option<bool>,
    /// Stop once this much markdown was read.
    pub max_total_chars: Option<usize>,
}

/// Something to search the web for.
#[derive(Debug)]
pub struct SearchRequest {
    pub query: String,
    pub max_results: Option<usize>,
    /// Only hits of this site.
    pub site: Option<String>,
    /// No hits of these sites.
    pub exclude_sites: Option<Vec<String>>,
    /// `day`, `week`, `month` or `year`.
    pub freshness: Option<String>,
}

/// What a request comes to once the defaults are filled in.
#[derive(Debug)]
pub struct Settings {
    pub extent: Extent,
    pub pages: Option<String>,
    pub actions: Option<Vec<Action>>,
}

impl ScrapeRequest {
    /// Whether images are listed: as the options say, else as the request says, else not.
    pub open spec fn wants_media(&self) -> bool {
        match self.options {
            Some(ScrapeOptions { include_media: Some(b), .. }) => b,
            _ => match self.include_media {
                Some(b) => b,
                None => false,
            },
        }
    }

    /// The page range that the options give, or else the request.
    pub open spec fn wanted_pages(&self) -> Option<Seq<char>> {
        match self.options {
            Some(ScrapeOptions { pages: Some(p), .. }) => Some(p@),
            _ => text::opt(self.pages),
        }
    }

    /// The actions that the options give, or else the request.
    pub open spec fn wanted_actions(&self) -> Option<Seq<Action>> {
        match self.options {
            Some(ScrapeOptions { actions: Some(a), .. }) => Some(a@),
            _ => match self.actions {
                Some(a) => Some(a@),
                None => None,
            },
        }
    }

    /// Fills in the defaults. What the options say goes before what the request itself says.
    pub fn settings(&self) -> (r: Settings)
        ensures
            r.extent.max_chars == (match self.max_chars {
                Some(n) => n,
                None => 40000,
            }),
            r.extent.include_links == (match self.include_links {
                Some(b) => b,
                None => true,
            }),
            r.extent.offset == self.offset,
            r.extent.include_media == self.wants_media(),
            text::opt(r.pages) == self.wanted_pages(),
            (match r.actions {
                Some(a) => Some(a@),
                None => None,
            }) == self.wanted_actions(),
    {
        let max_chars: usize = match self.max_chars {
            Some(n) => n,
            None => 40000,
        };
        let include_links = match self.include_links {
            Some(b) => b,
            None => true,
        };
        let mut include_media = match self.include_media {
            Some(b) => b,
            None => false,
        };
        let mut pages = text::copy_opt(&self.pages);
        let mut actions = copy_actions(&self.actions);
        if let Some(o) = &self.options {
            if let Some(b) = o.include_media {
                include_media = b;
            }
            if o.pages.is_some() {
                pages = text::copy_opt(&o.pages);
            }
            if o.actions.is_some() {
                actions = copy_actions(&o.actions);
            }
        }
        Settings {
            extent: Extent { max_chars, include_links, offset: self.offset, include_media },
            pages,
            actions,
        }
    }
}

impl Settings {
    /// The actions; no list of them is an empty list.
    pub open spec fn steps(&self) -> Seq<ActionView> {
        match self.actions {
            Some(a) => action_views(a@),
            None => seq![],
        }
    }

    /// How many actions there are. With one or more of them, the page is read in the browser.
    pub fn actions_len(&self) -> (r: usize)
        ensures
            r == self.steps().len(),
    {
        match &self.actions {
            Some(a) => a.len(),
            None => 0,
        }
    }
}

/// The usual extent of an answer: from the start, with the links and without images.
pub fn usual_extent(max_chars: usize) -> (r: Extent)
    ensures
        r == (Extent { max_chars, include_links: true, offset: None, include_media: false }),
{
    Extent { max_chars, include_links: true, offset: None, include_media: false }
}

impl ScrapeBatchRequest {
    /// How much markdown to answer with for each page.
    pub fn page_chars(&self) -> (r: usize)
        ensures
            r == (match self.max_chars {
                Some(n) => n,
                None => 40000,
            }),
    {
        match self.max_chars {
            Some(n) => n,
            None => 40000,
        }
    }
}

/// `n` or the nearest bound.
pub open spec fn clamped(n: int, low: int, high: int) -> int {
    if n < low {
        low
    } else if n > high {
        high
    } else {
        n
    }
}

/// The limits of a crawl.
#[derive(Debug, Clone, Copy)]
pub struct Limits {
    pub max_pages: usize,
    pub max_depth: usize,
    pub max_chars: usize,
    pub max_total_chars: Option<usize>,
}

impl CrawlRequest {
    /// The limits of the crawl: one to twenty pages, five by default; at most four links away
    /// from the start, two by default; eight thousand characters of markdown for each page by
    /// default.
    pub fn limits(&self) -> (r: Limits)
        ensures
            r.max_pages == clamped(
                match self.max_pages {
                    Some(n) => n as int,
                    None => 5,
                },
                1,
                20,
            ),
            r.max_depth == clamped(
                match self.max_depth {
                    Some(n) => n as int,
                    None => 2,
                },
                0,
                4,
            ),
            r.max_chars == (match self.max_chars {
                Some(n) => n,
                None => 8000,
            }),
            r.max_total_chars == self.max_total_chars,
    {
        let pages: usize = match self.max_pages {
            Some(n) => n,
            None => 5,
        };
        let depth: usize = match self.max_depth {
            Some(n) => n,
            None => 2,
        };
        let max_chars: usize = match self.max_chars {
            Some(n) => n,
            None => 8000,
        };
        Limits {
            max_pages: if pages < 1 {
                1
            } else if pages > 20 {
                20
            } else {
                pages
            },
            max_depth: if depth > 4 {
                4
            } else {
                depth
            },
            max_chars,
            max_total_chars: self.max_total_chars,
        }
    }
}

impl SearchRequest {
    /// How many hits to answer with: one to twenty, ten by default.
    pub fn wanted(&self) -> (r: usize)
        ensures
            r == clamped(
                match self.max_results {
                    Some(n) => n as int,
                    None => 10,
                },
                1,
                20,
            ),
    {
        let n: usize = match self.max_results {
            Some(n) => n,
            None => 10,
        };
        if n < 1 {
            1
        } else if n > 20 {
            20
        } else {
            n
        }
    }
}

// ── Laws ────────────────────────────────────────────────────────────────────

/// A number within its bounds stays as it is, and another one becomes the nearest bound.
pub proof fn numbers_within_bounds_stay(n: int, low: int, high: int)
    requires
        low <= high,
    ensures
        low <= n <= high ==> clamped(n, low, high) == n,
        n <= low ==> clamped(n, low, high) == low,
        n >= high ==> clamped(n, low, high) == high,
{
}

/// What the options of a request say goes before what the request says itself; where neither says
/// anything, no images are listed, no pages named and no actions carried out.
pub proof fn options_go_before_the_request(r: ScrapeRequest)
    ensures
        r.options matches Some(o) ==> {
            &&& o.include_media matches Some(b) ==> r.wants_media() == b
            &&& o.pages matches Some(p) ==> r.wanted_pages() == Some(p@)
            &&& o.actions matches Some(a) ==> r.wanted_actions() == Some(a@)
        },
        (r.options matches Some(o) ==> o.include_media is None) ==> {
            &&& r.include_media matches Some(b) ==> r.wants_media() == b
            &&& r.include_media is None ==> !r.wants_media()
        },
        (r.options matches Some(o) ==> o.pages is None) ==> r.wanted_pages() == text::opt(r.pages),
        (r.options matches Some(o) ==> o.actions is None) ==> {
            &&& r.actions matches Some(a) ==> r.wanted_actions() == Some(a@)
            &&& r.actions is None ==> r.wanted_actions() is None
        },
{
}

/// The steps of a request are its actions, each as it was asked for and in their order.
pub proof fn steps_are_the_actions(s: Settings)
    ensures
        s.actions is None ==> s.steps().len() == 0,
        s.actions matches Some(a) ==> {
            &&& s.steps().len() == a@.len()
            &&& forall|i: int| 0 <= i < a@.len() ==> #[trigger] s.steps()[i] == a@[i]@
        },
{
}

} // verus!
