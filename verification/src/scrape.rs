//! The course of scraping one page: what is tried first, under which keys the answer is looked
//! for and stored, and how the page is fetched.

use crate::address;
use crate::address::UrlError;
use crate::cache;
use crate::pdf;
use crate::request;
use crate::request::Action;
use crate::request::ActionView;
use crate::request::Settings;
use crate::text;
use vstd::prelude::*;

verus! {

/// How a page is going to be scraped.
#[derive(Debug)]
pub struct Job {
    /// The page is first asked for as a PDF.
    pub ask_pdf: bool,
    /// The keys under which the answer is looked for, in this order, and stored.
    pub keys: Vec<String>,
    /// The page is fetched by the browser, which carries out actions on it, and not by the
    /// ladder.
    pub drive_browser: bool,
}

/// The settings of a plain request: from the start, with the links, without anything else.
pub fn plain_settings(max_chars: usize) -> (r: Settings)
    ensures
        r.extent == (crate::answer::Extent {
            max_chars,
            include_links: true,
            offset: None,
            include_media: false,
        }),
        r.pages is None,
        r.actions is None,
{
    Settings { extent: request::usual_extent(max_chars), pages: None, actions: None }
}

// ── Keys ────────────────────────────────────────────────────────────────────

/// A text, preceded by its length.
pub open spec fn measured(s: Seq<char>) -> Seq<char> {
    text::decimal(s.len()) + ":"@ + s
}

/// How an action is written in a key.
pub open spec fn step_code(a: ActionView) -> Seq<char> {
    match a {
        ActionView::Click(s) => "c"@ + measured(s),
        ActionView::Fill(s, t) => "f"@ + measured(s) + measured(t),
        ActionView::Press(k) => "p"@ + measured(k),
        ActionView::Wait(ms) => "w"@ + text::decimal(ms) + ":"@,
        ActionView::Scroll(px) => "s"@ + text::decimal(px) + ":"@,
    }
}

/// How actions are written in a key, one behind the other.
pub open spec fn step_codes(steps: Seq<ActionView>) -> Seq<char>
    decreases steps.len(),
{
    if steps.len() == 0 {
        seq![]
    } else {
        step_codes(steps.drop_last()) + step_code(steps.last())
    }
}

/// What a key begins with: whether links are listed, and the actions, preceded by their number.
pub open spec fn key_head(include_links: bool, steps: Seq<ActionView>) -> Seq<char> {
    (if include_links {
        "1"@
    } else {
        "0"@
    }) + text::decimal(steps.len()) + ":"@ + step_codes(steps)
}

/// Where reading starts.
pub open spec fn start_of(s: Settings) -> nat {
    match s.extent.offset {
        Some(o) => o as nat,
        None => 0,
    }
}

/// The pages of a PDF that are asked for.
pub open spec fn pages_of(s: Settings) -> Seq<char> {
    match text::opt(s.pages) {
        Some(p) => p,
        None => seq![],
    }
}

/// What a key holds of a request besides.
pub open spec fn rest_of_key(url: Seq<char>, focus: Option<&str>, s: Settings) -> Seq<char> {
    cache::full_key(
        url,
        cache::or_empty(focus),
        s.extent.max_chars as nat,
        start_of(s),
        s.extent.include_media,
        pages_of(s),
        s.steps().len(),
    )
}

/// The key of a request with the settings, in which everything that bears on the answer is.
pub open spec fn own_key(url: Seq<char>, focus: Option<&str>, s: Settings) -> Seq<char> {
    key_head(s.extent.include_links, s.steps()) + rest_of_key(url, focus, s)
}

/// Every option has its default.
pub open spec fn is_plain(s: Settings) -> bool {
    s.extent.include_links && s.extent.offset is None && !s.extent.include_media && s.pages is None
        && s.steps().len() == 0
}

/// The keys of a request with the settings: its own one, and the plain one where every option
/// has its default.
pub open spec fn keys_for(url: Seq<char>, focus: Option<&str>, s: Settings) -> Seq<Seq<char>> {
    if is_plain(s) {
        seq![
            own_key(url, focus, s),
            cache::plain_key(url, cache::or_empty(focus), s.extent.max_chars as nat),
        ]
    } else {
        seq![own_key(url, focus, s)]
    }
}

/// A text, preceded by its length.
fn measure(s: &str) -> (r: String)
    ensures
        r@ == measured(s@),
{
    let mut r = text::show(text::count_chars(s));
    r.append(":");
    r.append(s);
    r
}

/// How an action is written in a key.
fn write_step(a: &Action) -> (r: String)
    ensures
        r@ == step_code(a@),
{
    match a {
        Action::Click(s) => {
            let mut r = "c".to_owned();
            r.append(measure(s.as_str()).as_str());
            r
        },
        Action::Fill { selector, text } => {
            let mut r = "f".to_owned();
            r.append(measure(selector.as_str()).as_str());
            r.append(measure(text.as_str()).as_str());
            r
        },
        Action::Press(k) => {
            let mut r = "p".to_owned();
            r.append(measure(k.as_str()).as_str());
            r
        },
        Action::Wait(ms) => {
            let mut r = "w".to_owned();
            r.append(text::show_wide(*ms).as_str());
            r.append(":");
            r
        },
        Action::Scroll(px) => {
            let mut r = "s".to_owned();
            r.append(text::show_wide(*px as u64).as_str());
            r.append(":");
            r
        },
    }
}

/// What a key begins with.
fn write_head(include_links: bool, settings: &Settings) -> (r: String)
    ensures
        r@ == key_head(include_links, settings.steps()),
{
    let ghost steps = settings.steps();
    let n: usize = settings.actions_len();
    let mut r = if include_links {
        "1".to_owned()
    } else {
        "0".to_owned()
    };
    r.append(text::show(n).as_str());
    r.append(":");
    let ghost start = r@;
    assert(steps.take(0) =~= Seq::<ActionView>::empty());
    assert(start + step_codes(steps.take(0)) =~= start);
    if let Some(list) = &settings.actions {
        let mut i: usize = 0;
        while i < list.len()
            invariant
                i <= list@.len(),
                steps == request::action_views(list@),
                r@ == start + step_codes(steps.take(i as int)),
            decreases list@.len() - i,
        {
            let code = write_step(&list[i]);
            r.append(code.as_str());
            proof {
                let t = steps.take(i + 1);
                assert(t.drop_last() =~= steps.take(i as int));
                assert(t.last() == list@[i as int]@);
                assert(start + step_codes(steps.take(i as int)) + code@ =~= start + step_codes(t));
            }
            i += 1;
        }
        assert(steps.take(i as int) =~= steps);
    } else {
        assert(steps =~= steps.take(0));
    }
    r
}

/// The keys under which the answer to a request is looked for and stored.
pub fn keys_of(url: &str, focus: Option<&str>, settings: &Settings) -> (r: Vec<String>)
    ensures
        text::views(r@) == keys_for(url@, focus, *settings),
{
    let pages = match &settings.pages {
        Some(p) => Some(p.as_str()),
        None => None,
    };
    let n: usize = settings.actions_len();
    let mut key = write_head(settings.extent.include_links, settings);
    let full = cache::cache_key_ext(
        url,
        focus,
        settings.extent.max_chars,
        settings.extent.offset,
        settings.extent.include_media,
        pages,
        n,
    );
    key.append(full.as_str());
    let mut r: Vec<String> = Vec::new();
    r.push(key);
    if settings.extent.include_links && settings.extent.offset.is_none()
        && !settings.extent.include_media && settings.pages.is_none() && n == 0 {
        r.push(cache::cache_key(url, focus, settings.extent.max_chars));
    }
    assert(text::views(r@) =~= keys_for(url@, focus, *settings));
    r
}

/// A text that is preceded by its length ends where it ends.
proof fn lemma_measured(a: Seq<char>, x: Seq<char>, b: Seq<char>, y: Seq<char>)
    requires
        measured(a) + x == measured(b) + y,
    ensures
        a == b,
        x == y,
{
    lemma_number(a.len(), a + x, b.len(), b + y);
    reveal_strlit(":");
    let colon = seq![':'];
    assert(":"@ =~= colon);
    assert(measured(a) + x =~= text::decimal(a.len()) + colon + (a + x));
    assert(measured(b) + y =~= text::decimal(b.len()) + colon + (b + y));
    assert(a =~= (a + x).take(a.len() as int));
    assert(b =~= (b + y).take(b.len() as int));
    assert(x =~= (a + x).skip(a.len() as int));
    assert(y =~= (b + y).skip(b.len() as int));
}

/// A number ends at the colon that follows it.
proof fn lemma_number(m: nat, x: Seq<char>, n: nat, y: Seq<char>)
    ensures
        text::decimal(m) + seq![':'] + x == text::decimal(n) + seq![':'] + y ==> m == n && x == y,
{
    if text::decimal(m) + seq![':'] + x == text::decimal(n) + seq![':'] + y {
        text::lemma_decimal_digits(m);
        text::lemma_decimal_digits(n);
        text::lemma_delimited(text::decimal(m), x, text::decimal(n), y, ':');
        text::decimal_is_injective(m, n);
    }
}

/// An action ends where it ends.
proof fn lemma_step(a: ActionView, x: Seq<char>, b: ActionView, y: Seq<char>)
    requires
        step_code(a) + x == step_code(b) + y,
    ensures
        a == b,
        x == y,
{
    reveal_strlit("c");
    reveal_strlit("f");
    reveal_strlit("p");
    reveal_strlit("w");
    reveal_strlit("s");
    reveal_strlit(":");
    let colon = seq![':'];
    assert(":"@ =~= colon);
    let l = step_code(a) + x;
    let r = step_code(b) + y;
    assert(l[0] == r[0]);
    assert(l[0] == step_code(a)[0]);
    assert(r[0] == step_code(b)[0]);
    let s = l.skip(1);
    match (a, b) {
        (ActionView::Click(c), ActionView::Click(d)) => {
            assert(s =~= measured(c) + x);
            assert(s =~= measured(d) + y);
            lemma_measured(c, x, d, y);
        },
        (ActionView::Press(c), ActionView::Press(d)) => {
            assert(s =~= measured(c) + x);
            assert(s =~= measured(d) + y);
            lemma_measured(c, x, d, y);
        },
        (ActionView::Fill(c, t), ActionView::Fill(d, u)) => {
            assert(s =~= measured(c) + (measured(t) + x));
            assert(s =~= measured(d) + (measured(u) + y));
            lemma_measured(c, measured(t) + x, d, measured(u) + y);
            lemma_measured(t, x, u, y);
        },
        (ActionView::Wait(m), ActionView::Wait(n)) => {
            assert(s =~= text::decimal(m) + colon + x);
            assert(s =~= text::decimal(n) + colon + y);
            lemma_number(m, x, n, y);
        },
        (ActionView::Scroll(m), ActionView::Scroll(n)) => {
            assert(s =~= text::decimal(m) + colon + x);
            assert(s =~= text::decimal(n) + colon + y);
            lemma_number(m, x, n, y);
        },
        _ => {},
    }
}

/// The first action comes first.
proof fn lemma_first_step(steps: Seq<ActionView>)
    requires
        steps.len() > 0,
    ensures
        step_codes(steps) == step_code(steps[0]) + step_codes(steps.drop_first()),
    decreases steps.len(),
{
    let rest = steps.drop_last();
    if steps.len() == 1 {
        assert(rest =~= Seq::<ActionView>::empty());
        assert(steps.drop_first() =~= Seq::<ActionView>::empty());
        assert(step_codes(steps) =~= step_code(steps[0]) + step_codes(steps.drop_first()));
    } else {
        lemma_first_step(rest);
        assert(steps.drop_first().drop_last() =~= rest.drop_first());
        assert(step_codes(steps) =~= step_code(steps[0]) + step_codes(steps.drop_first()));
    }
}

/// Equally many actions are told apart.
proof fn lemma_steps(a: Seq<ActionView>, x: Seq<char>, b: Seq<ActionView>, y: Seq<char>)
    requires
        a.len() == b.len(),
        step_codes(a) + x == step_codes(b) + y,
    ensures
        a == b,
        x == y,
    decreases a.len(),
{
    if a.len() == 0 {
        assert(step_codes(a) + x =~= x);
        assert(step_codes(b) + y =~= y);
        assert(a =~= b);
    } else {
        let (c, d) = (a.drop_first(), b.drop_first());
        lemma_first_step(a);
        lemma_first_step(b);
        assert(step_codes(a) + x =~= step_code(a[0]) + (step_codes(c) + x));
        assert(step_codes(b) + y =~= step_code(b[0]) + (step_codes(d) + y));
        lemma_step(a[0], step_codes(c) + x, b[0], step_codes(d) + y);
        lemma_steps(c, x, d, y);
        assert(a =~= seq![a[0]] + c);
        assert(b =~= seq![b[0]] + d);
    }
}

/// What a key begins with ends where it ends.
proof fn lemma_head(
    links: bool,
    a: Seq<ActionView>,
    x: Seq<char>,
    links2: bool,
    b: Seq<ActionView>,
    y: Seq<char>,
)
    requires
        key_head(links, a) + x == key_head(links2, b) + y,
    ensures
        links == links2,
        a == b,
        x == y,
{
    reveal_strlit("0");
    reveal_strlit("1");
    reveal_strlit(":");
    let colon = seq![':'];
    assert(":"@ =~= colon);
    let l = key_head(links, a) + x;
    let r = key_head(links2, b) + y;
    assert(l[0] == r[0]);
    assert(l.skip(1) =~= text::decimal(a.len()) + colon + (step_codes(a) + x));
    assert(r.skip(1) =~= text::decimal(b.len()) + colon + (step_codes(b) + y));
    lemma_number(a.len(), step_codes(a) + x, b.len(), step_codes(b) + y);
    lemma_steps(a, x, b, y);
}

/// Requests with the same key of their own agree in whether links are listed and in every
/// action, and what follows in the key is the same.
pub proof fn own_keys_tell_links_and_actions_apart(
    url: Seq<char>,
    focus: Option<&str>,
    s: Settings,
    url2: Seq<char>,
    focus2: Option<&str>,
    s2: Settings,
)
    requires
        own_key(url, focus, s) == own_key(url2, focus2, s2),
    ensures
        s.extent.include_links == s2.extent.include_links,
        s.steps() == s2.steps(),
        rest_of_key(url, focus, s) == rest_of_key(url2, focus2, s2),
{
    lemma_head(
        s.extent.include_links,
        s.steps(),
        rest_of_key(url, focus, s),
        s2.extent.include_links,
        s2.steps(),
        rest_of_key(url2, focus2, s2),
    );
}

/// A key of a request's own begins with a digit.
proof fn lemma_own_key(url: Seq<char>, focus: Option<&str>, s: Settings)
    ensures
        own_key(url, focus, s).len() > 0,
        '0' <= own_key(url, focus, s)[0] <= '9',
{
    reveal_strlit("0");
    reveal_strlit("1");
    let h = key_head(s.extent.include_links, s.steps());
    assert(h[0] == '0' || h[0] == '1');
    assert(own_key(url, focus, s)[0] == h[0]);
}

/// Requests that share a key agree in whether links are listed and in every action. An address
/// begins with the name of its scheme, which does not begin with a digit.
pub proof fn keys_tell_links_and_actions_apart(
    key: Seq<char>,
    url: Seq<char>,
    focus: Option<&str>,
    s: Settings,
    url2: Seq<char>,
    focus2: Option<&str>,
    s2: Settings,
)
    requires
        url.len() > 0 && !('0' <= url[0] <= '9'),
        url2.len() > 0 && !('0' <= url2[0] <= '9'),
        keys_for(url, focus, s).contains(key),
        keys_for(url2, focus2, s2).contains(key),
    ensures
        s.extent.include_links == s2.extent.include_links,
        s.steps() == s2.steps(),
{
    let p = cache::plain_key(url, cache::or_empty(focus), s.extent.max_chars as nat);
    let q = cache::plain_key(url2, cache::or_empty(focus2), s2.extent.max_chars as nat);
    assert(p[0] == url[0]);
    assert(q[0] == url2[0]);
    lemma_own_key(url, focus, s);
    lemma_own_key(url2, focus2, s2);
    if key == own_key(url, focus, s) {
        assert(key != q);
        assert(key == own_key(url2, focus2, s2));
        own_keys_tell_links_and_actions_apart(url, focus, s, url2, focus2, s2);
    } else {
        assert(key == p);
        assert(key != own_key(url2, focus2, s2));
        assert(s.steps() =~= s2.steps());
    }
}

// ── The course ──────────────────────────────────────────────────────────────

/// Decides how a page is scraped, or refuses it.
pub fn begin(url: &str, focus: Option<&str>, settings: &Settings) -> (r: Result<Job, UrlError>)
    ensures
        match address::refusal(url@) {
            Some(e) => r matches Err(x) && x@ == e,
            None => r matches Ok(j) && {
                &&& j.ask_pdf == (pdf::pdf_address(url@) || settings.pages is Some)
                &&& text::views(j.keys@) == keys_for(url@, focus, *settings)
                &&& j.drive_browser == (settings.steps().len() > 0)
            },
        },
{
    if let Err(e) = address::validate(url) {
        return Err(e);
    }
    let pages = match &settings.pages {
        Some(p) => Some(p.as_str()),
        None => None,
    };
    let keys = keys_of(url, focus, settings);
    Ok(
        Job {
            ask_pdf: pdf::worth_asking(url, pages),
            keys,
            drive_browser: settings.actions_len() > 0,
        },
    )
}

/// The keys under which an answer is stored: all of them, but the first only for a PDF.
pub open spec fn stored_under(keys: Seq<Seq<char>>, is_pdf: bool) -> Seq<Seq<char>> {
    if is_pdf {
        text::first(keys, 1)
    } else {
        keys
    }
}

impl Job {
    /// The keys under which an answer is stored: all of them, but the first only for a PDF.
    pub fn store_keys(&self, is_pdf: bool) -> (r: Vec<String>)
        ensures
            text::views(r@) == stored_under(text::views(self.keys@), is_pdf),
    {
        if !is_pdf {
            return text::copy_all(&self.keys);
        }
        let mut r: Vec<String> = Vec::new();
        if self.keys.len() > 0 {
            r.push(self.keys[0].clone());
        }
        assert(text::views(r@) =~= text::first(text::views(self.keys@), 1));
        r
    }
}

/// An answer that is stored is found again under the first key by which it is looked for.
pub proof fn answers_are_stored_where_they_are_looked_for(
    url: Seq<char>,
    focus: Option<&str>,
    s: Settings,
    is_pdf: bool,
)
    ensures
        ({
            let keys = keys_for(url, focus, s);
            stored_under(keys, is_pdf).len() > 0 && stored_under(keys, is_pdf)[0] == keys[0]
        }),
{
}

/// Requests with the same key of their own are alike in everything that bears on the answer:
/// address, query, limit, offset, whether links and images are listed, the pages of a PDF and every
/// action. A bar in an address, a query or a page range is set aside.
pub proof fn own_keys_tell_requests_apart(
    url: Seq<char>,
    focus: Option<&str>,
    s: Settings,
    url2: Seq<char>,
    focus2: Option<&str>,
    s2: Settings,
)
    requires
        own_key(url, focus, s) == own_key(url2, focus2, s2),
        !url.contains('|') && !url2.contains('|'),
        focus matches Some(q) ==> !q@.contains('|'),
        focus2 matches Some(q) ==> !q@.contains('|'),
        s.pages matches Some(p) ==> !p@.contains('|'),
        s2.pages matches Some(p) ==> !p@.contains('|'),
    ensures
        url == url2,
        focus is Some && focus2 is Some ==> (focus->0)@ == (focus2->0)@,
        (focus matches Some(q) && q@.len() > 0) ==> focus2 is Some,
        s.extent.max_chars == s2.extent.max_chars,
        s.extent.offset is Some && s2.extent.offset is Some ==> s.extent.offset == s2.extent.offset,
        (s.extent.offset matches Some(o) && o > 0) ==> s2.extent.offset is Some,
        s.extent.include_media == s2.extent.include_media,
        s.extent.include_links == s2.extent.include_links,
        s.pages is Some && s2.pages is Some ==> (s.pages->0)@ == (s2.pages->0)@,
        (s.pages matches Some(p) && p@.len() > 0) ==> s2.pages is Some,
        s.steps() == s2.steps(),
{
    own_keys_tell_links_and_actions_apart(url, focus, s, url2, focus2, s2);
    let none = Seq::<char>::empty();
    assert(!none.contains('|'));
    assert(seq![] =~= none);
    cache::keys_do_not_collide(
        url,
        cache::or_empty(focus),
        s.extent.max_chars as nat,
        start_of(s),
        s.extent.include_media,
        pages_of(s),
        s.steps().len(),
        url2,
        cache::or_empty(focus2),
        s2.extent.max_chars as nat,
        start_of(s2),
        s2.extent.include_media,
        pages_of(s2),
        s2.steps().len(),
    );
}

/// An answer is looked for under the request's own key first. A request with nothing but defaults
/// is looked for under the plain key too, and no other is.
pub proof fn plain_requests_have_the_plain_key(url: Seq<char>, focus: Option<&str>, s: Settings)
    ensures
        ({
            let keys = keys_for(url, focus, s);
            let plain = s.extent.include_links && s.extent.offset is None && !s.extent.include_media
                && s.pages is None && (s.actions matches Some(a) ==> a@.len() == 0);
            &&& keys[0] == own_key(url, focus, s)
            &&& plain ==> keys.len() == 2 && keys[1] == cache::plain_key(
                url,
                match focus {
                    Some(q) => q@,
                    None => Seq::<char>::empty(),
                },
                s.extent.max_chars as nat,
            )
            &&& !plain ==> keys.len() == 1
        }),
{
    assert(seq![] =~= Seq::<char>::empty());
}

/// An answer is stored under every key under which it is looked for, but the preview of a PDF under
/// the first one only.
pub proof fn answers_are_stored_under_their_keys(keys: Seq<Seq<char>>)
    ensures
        stored_under(keys, false) == keys,
        keys.len() > 0 ==> stored_under(keys, true) == seq![keys[0]],
{
    text::first_items_are_the_beginning(keys, 1);
    if keys.len() > 0 {
        assert(stored_under(keys, true) =~= seq![keys[0]]);
    }
}

} // verus!
