//! Cheapest-first fetch ladder: plain HTTP, then a real browser.
//!
//! The cheap tier handles most of the web; the browser only pays its tax when the cheap tier
//! is visibly blocked. This module decides what counts as blocked and which rung answers; the
//! requests themselves are made by the caller.

use crate::bindings::unicode;
use crate::text;
use vstd::prelude::*;
use vstd::utf8::*;

verus! {

// ── What a page shows ───────────────────────────────────────────────────────

/// A byte with an ASCII letter in lower case.
pub open spec fn lower_byte(b: u8) -> u8 {
    if 0x41 <= b <= 0x5a {
        (b + 32) as u8
    } else {
        b
    }
}

/// Bytes with their ASCII letters in lower case.
pub open spec fn lower_bytes(s: Seq<u8>) -> Seq<u8> {
    Seq::new(s.len(), |i: int| lower_byte(s[i]))
}

/// What a scan of lower-cased markup from `i` on sees: bytes of visible text that is not white
/// space, and bytes locked inside `<script>` and `<style>` blocks.
///
/// A block runs up to its closing tag, or to the end of the text if it is never closed; any
/// other tag runs up to and with its `>`.
pub open spec fn seen_from(b: Seq<u8>, i: int) -> (nat, nat)
    decreases b.len() - i,
{
    if i < 0 || i >= b.len() {
        (0, 0)
    } else if b[i] != 0x3c {
        let rest = seen_from(b, i + 1);
        if text::space_byte(b[i]) {
            rest
        } else {
            (rest.0 + 1, rest.1)
        }
    } else if text::occurs_at(b, text::ascii("<script"@), i) {
        proof {
            reveal_strlit("<script");
            reveal_strlit("</script");
            lemma_block(b, "<script", "</script", i);
        }
        let end = text::first_at(b, text::ascii("</script"@), i);
        let rest = seen_from(b, end);
        (rest.0, (rest.1 + (end - i)) as nat)
    } else if text::occurs_at(b, text::ascii("<style"@), i) {
        proof {
            reveal_strlit("<style");
            reveal_strlit("</style");
            lemma_block(b, "<style", "</style", i);
        }
        let end = text::first_at(b, text::ascii("</style"@), i);
        let rest = seen_from(b, end);
        (rest.0, (rest.1 + (end - i)) as nat)
    } else {
        proof {
            text::lemma_first_at(b, seq![0x3eu8], i);
        }
        let end = text::first_at(b, seq![0x3eu8], i);
        seen_from(
            b,
            if end < b.len() {
                end + 1
            } else {
                end
            },
        )
    }
}

/// Bytes of visible text and bytes of script and style of a page.
pub open spec fn seen(html: Seq<char>) -> (nat, nat) {
    seen_from(lower_bytes(encode_utf8(html)), 0)
}

/// A closing tag stands behind its opening tag, not at it.
pub proof fn lemma_block(b: Seq<u8>, open: &str, close: &str, i: int)
    requires
        0 <= i < b.len(),
        text::occurs_at(b, text::ascii(open@), i),
        open@.len() >= 2,
        close@.len() >= 2,
        open@[1] as u8 != close@[1] as u8,
    ensures
        i < text::first_at(b, text::ascii(close@), i) <= b.len(),
{
    let o = text::ascii(open@);
    let c = text::ascii(close@);
    assert(b.subrange(i, i + o.len())[1] == b[i + 1]);
    if text::occurs_at(b, c, i) {
        assert(b.subrange(i, i + c.len())[1] == b[i + 1]);
    }
    text::lemma_first_at(b, c, i + 1);
}

/// The first position from `from` on where `pat` stands in `s`; the length of `s` if there is
/// none.
fn find_from(s: &[u8], pat: &[u8], from: usize) -> (r: usize)
    requires
        from <= s@.len(),
    ensures
        r == text::first_at(s@, pat@, from as int),
        from <= r <= s@.len(),
{
    let mut i: usize = from;
    while i < s.len() && pat.len() <= s.len() - i
        invariant
            from <= i <= s@.len(),
            text::first_at(s@, pat@, from as int) == text::first_at(s@, pat@, i as int),
        decreases s@.len() - i,
    {
        if text::bytes_at(s, pat, i) {
            return i;
        }
        i += 1;
    }
    s.len()
}

/// The first position of the non-empty `needle` in `hay`.
pub fn find_sub(hay: &[u8], needle: &[u8]) -> (r: Option<usize>)
    requires
        needle@.len() > 0,
    ensures
        match r {
            Some(p) => text::occurs_at(hay@, needle@, p as int) && p == text::first_at(
                hay@,
                needle@,
                0,
            ),
            None => forall|j: int| !text::occurs_at(hay@, needle@, j),
        },
{
    let p = find_from(hay, needle, 0);
    proof {
        text::lemma_first_at_found(hay@, needle@, 0);
    }
    if p < hay.len() {
        Some(p)
    } else {
        None
    }
}

/// The bytes of `s` with ASCII letters in lower case.
fn to_lower_bytes(s: &[u8]) -> (r: Vec<u8>)
    ensures
        r@ == lower_bytes(s@),
{
    let mut r: Vec<u8> = Vec::new();
    let mut i: usize = 0;
    while i < s.len()
        invariant
            i <= s@.len(),
            r@ == lower_bytes(s@).take(i as int),
        decreases s@.len() - i,
    {
        let b: u8 = s[i];
        r.push(
            if 0x41 <= b && b <= 0x5a {
                b + 32
            } else {
                b
            },
        );
        i += 1;
    }
    assert(lower_bytes(s@).take(i as int) == lower_bytes(s@));
    r
}

/// Bytes of visible text (neither white space nor markup), and bytes locked inside `<script>`
/// and `<style>` blocks. One pass, no parser.
///
/// This is the language-independent half of block detection: a bot wall is structurally a few
/// words wrapped in a lot of JavaScript, whatever language it apologises in.
pub fn visible_and_script_len(html: &str) -> (r: (usize, usize))
    ensures
        (r.0 as nat, r.1 as nat) == seen(html@),
{
    proof {
        reveal_strlit("<script");
        reveal_strlit("</script");
        reveal_strlit("<style");
        reveal_strlit("</style");
    }
    let b = to_lower_bytes(html.as_bytes());
    let open_script = text::ascii_bytes("<script");
    let close_script = text::ascii_bytes("</script");
    let open_style = text::ascii_bytes("<style");
    let close_style = text::ascii_bytes("</style");
    let gt: [u8; 1] = [0x3e];
    assert(gt@ == seq![0x3eu8]);
    let mut visible: usize = 0;
    let mut script: usize = 0;
    let mut i: usize = 0;
    while i < b.len()
        invariant
            i <= b@.len(),
            visible + script <= i,
            b@ == lower_bytes(encode_utf8(html@)),
            open_script@ == text::ascii("<script"@),
            close_script@ == text::ascii("</script"@),
            open_style@ == text::ascii("<style"@),
            close_style@ == text::ascii("</style"@),
            gt@ == seq![0x3eu8],
            seen(html@).0 == visible + seen_from(b@, i as int).0,
            seen(html@).1 == script + seen_from(b@, i as int).1,
        decreases b@.len() - i,
    {
        if b[i] != 0x3c {
            if !text::is_space_byte(b[i]) {
                visible += 1;
            }
            i += 1;
        } else if text::bytes_at(&b, open_script, i) {
            let end = find_from(&b, close_script, i);
            proof {
                reveal_strlit("<script");
                reveal_strlit("</script");
                lemma_block(b@, "<script", "</script", i as int);
            }
            script += end - i;
            i = end;
        } else if text::bytes_at(&b, open_style, i) {
            let end = find_from(&b, close_style, i);
            proof {
                reveal_strlit("<style");
                reveal_strlit("</style");
                lemma_block(b@, "<style", "</style", i as int);
            }
            script += end - i;
            i = end;
        } else {
            let end = find_from(&b, &gt, i);
            i = if end < b.len() {
                end + 1
            } else {
                end
            };
        }
    }
    (visible, script)
}

// ── Walls ───────────────────────────────────────────────────────────────────

/// The status codes with which an origin turns a client away.
pub open spec fn refused(status: u16) -> bool {
    status == 401 || status == 403 || status == 429 || status == 503
}

/// The start of a page that is searched for signatures, in lower case.
pub open spec fn head_of(html: Seq<char>) -> Seq<char> {
    unicode::lowercase(
        html.take(
            if html.len() < 16384 {
                html.len() as int
            } else {
                16384
            },
        ),
    )
}

/// The vendor whose infrastructure, shipped only on a challenge page, the head names.
pub open spec fn vendor_of(head: Seq<char>) -> Option<Seq<char>> {
    if text::contains(head, "/cdn-cgi/challenge-platform"@) {
        Some("Cloudflare"@)
    } else if text::contains(head, "captcha-delivery.com"@) {
        Some("DataDome"@)
    } else if text::contains(head, "_incapsula_resource"@) {
        Some("Imperva"@)
    } else if text::contains(head, "px-captcha"@) {
        Some("PerimeterX"@)
    } else if text::contains(head, "/_sec/cp_challenge"@) {
        Some("Akamai"@)
    } else if text::contains(head, "geo.captcha"@) {
        Some("DataDome"@)
    } else {
        None
    }
}

/// The head holds the copy of a known interstitial.
pub open spec fn interstitial(head: Seq<char>) -> bool {
    ||| text::contains(head, "just a moment"@)
    ||| text::contains(head, "cf-browser-verification"@)
    ||| text::contains(head, "checking your browser"@)
    ||| text::contains(head, "cf_chl_opt"@)
    ||| text::contains(head, "enable javascript and cookies to continue"@)
    ||| text::contains(head, "attention required! | cloudflare"@)
    ||| text::contains(head, "__cf_chl"@)
    ||| text::contains(head, "please enable js"@)
    ||| text::contains(head, "please enable javascript"@)
    ||| text::contains(head, "verifying you are human"@)
}

/// Almost no text, mostly script.
pub open spec fn thin(html: Seq<char>) -> bool {
    seen(html).0 < 500 && seen(html).1 > 500 && seen(html).1 > 2 * seen(html).0
}

/// Why a response looks like a wall rather than content, if it does,
/// given the lower-cased start of the page.
pub open spec fn wall_given(status: u16, html: Seq<char>, head: Seq<char>) -> Option<Seq<char>> {
    let small = text::byte_len(html) < 60000;
    if refused(status) {
        Some("HTTP "@ + text::decimal(status as nat) + " from origin"@)
    } else if text::byte_len(html) < 500 {
        Some("near-empty response body"@)
    } else if small && vendor_of(head) is Some {
        Some(vendor_of(head)->0 + " challenge page"@)
    } else if small && interstitial(head) {
        Some("bot interstitial text"@)
    } else if thin(html) {
        Some(
            "thin body dominated by scripts ("@ + text::decimal(seen(html).0) + "B text vs "@
                + text::decimal(seen(html).1)
                + "B script) - challenge page or client-rendered shell"@,
        )
    } else {
        None
    }
}

/// Why a response looks like a wall rather than content, if it does.
pub open spec fn wall(status: u16, html: Seq<char>) -> Option<Seq<char>> {
    wall_given(status, html, head_of(html))
}

fn vendor(head: &[char]) -> (r: Option<&'static str>)
    ensures
        match r {
            Some(v) => vendor_of(head@) == Some(v@),
            None => vendor_of(head@) is None,
        },
{
    if text::found_in(head, &text::to_chars("/cdn-cgi/challenge-platform")) {
        Some("Cloudflare")
    } else if text::found_in(head, &text::to_chars("captcha-delivery.com")) {
        Some("DataDome")
    } else if text::found_in(head, &text::to_chars("_incapsula_resource")) {
        Some("Imperva")
    } else if text::found_in(head, &text::to_chars("px-captcha")) {
        Some("PerimeterX")
    } else if text::found_in(head, &text::to_chars("/_sec/cp_challenge")) {
        Some("Akamai")
    } else if text::found_in(head, &text::to_chars("geo.captcha")) {
        Some("DataDome")
    } else {
        None
    }
}

fn has_interstitial(head: &[char]) -> (r: bool)
    ensures
        r == interstitial(head@),
{
    text::found_in(head, &text::to_chars("just a moment"))
        || text::found_in(head, &text::to_chars("cf-browser-verification"))
        || text::found_in(head, &text::to_chars("checking your browser"))
        || text::found_in(head, &text::to_chars("cf_chl_opt"))
        || text::found_in(head, &text::to_chars("enable javascript and cookies to continue"))
        || text::found_in(head, &text::to_chars("attention required! | cloudflare"))
        || text::found_in(head, &text::to_chars("__cf_chl"))
        || text::found_in(head, &text::to_chars("please enable js"))
        || text::found_in(head, &text::to_chars("please enable javascript"))
        || text::found_in(head, &text::to_chars("verifying you are human"))
}

/// The first characters of `html`, at most 16384 of them, in lower case.
fn head(html: &str) -> (r: String)
    ensures
        r@ == head_of(html@),
{
    let c = text::to_chars(html);
    let n: usize = if c.len() < 16384 {
        c.len()
    } else {
        16384
    };
    let start = text::from_chars(&c, 0, n);
    assert(start@ == html@.take(n as int));
    unicode::to_lowercase(start.as_str())
}

/// Why this response looks like a wall rather than content, if it does, given the lower-cased
/// start of the page.
pub fn judge(status: u16, html: &str, head: &str) -> (r: Option<String>)
    ensures
        text::opt(r) == wall_given(status, html@, head@),
{
    if status == 401 || status == 403 || status == 429 || status == 503 {
        let mut m = "HTTP ".to_owned();
        m.append(text::show(status as usize).as_str());
        m.append(" from origin");
        return Some(m);
    }
    let len: usize = text::len(html);
    if len < 500 {
        return Some("near-empty response body".to_owned());
    }
    if len < 60000 {
        let h = text::to_chars(head);
        if let Some(v) = vendor(&h) {
            let mut m = v.to_owned();
            m.append(" challenge page");
            return Some(m);
        }
        if has_interstitial(&h) {
            return Some("bot interstitial text".to_owned());
        }
    }
    let (visible, script) = visible_and_script_len(html);
    if visible < 500 && script > 500 && script > 2 * visible {
        let mut m = "thin body dominated by scripts (".to_owned();
        m.append(text::show(visible).as_str());
        m.append("B text vs ");
        m.append(text::show(script).as_str());
        m.append("B script) - challenge page or client-rendered shell");
        return Some(m);
    }
    None
}

/// Why this response looks like a wall rather than content, if it does.
///
/// Three layers, cheapest first. The last one is the important one: it needs no vendor list
/// and no English, so a protection service never seen before still gets caught. Interstitials
/// are small, so a large document is real content even if its prose quotes one of them.
///
/// This is a heuristic, not a classifier. A page that is genuinely a few words plus heavy
/// JavaScript reads as a shell, which costs one browser escalation, not a wrong answer.
pub fn block_reason(status: u16, html: &str) -> (r: Option<String>)
    ensures
        text::opt(r) == wall(status, html@),
{
    judge(status, html, head(html).as_str())
}

/// A large page from an origin that did not refuse it is blocked by its structure alone, never
/// for a phrase that it quotes.
pub proof fn large_pages_are_judged_by_structure(status: u16, html: Seq<char>)
    requires
        !refused(status),
        text::byte_len(html) >= 60000,
    ensures
        wall(status, html) is Some <==> thin(html),
{
}

/// The status of a response that was not refused does not bear on the verdict.
pub proof fn verdict_ignores_status(a: u16, b: u16, html: Seq<char>)
    requires
        !refused(a),
        !refused(b),
    ensures
        wall(a, html) == wall(b, html),
{
}

/// What is counted as visible and as script never exceeds the page.
pub proof fn seen_within_page(html: Seq<char>)
    ensures
        seen(html).0 + seen(html).1 <= text::byte_len(html),
{
    lemma_seen_from(lower_bytes(encode_utf8(html)), 0);
}

proof fn lemma_seen_from(b: Seq<u8>, i: int)
    requires
        0 <= i <= b.len(),
    ensures
        seen_from(b, i).0 + seen_from(b, i).1 <= b.len() - i,
    decreases b.len() - i,
{
    if i < b.len() {
        if b[i] != 0x3c {
            lemma_seen_from(b, i + 1);
        } else if text::occurs_at(b, text::ascii("<script"@), i) {
            reveal_strlit("<script");
            reveal_strlit("</script");
            lemma_block(b, "<script", "</script", i);
            lemma_seen_from(b, text::first_at(b, text::ascii("</script"@), i));
        } else if text::occurs_at(b, text::ascii("<style"@), i) {
            reveal_strlit("<style");
            reveal_strlit("</style");
            lemma_block(b, "<style", "</style", i);
            lemma_seen_from(b, text::first_at(b, text::ascii("</style"@), i));
        } else {
            text::lemma_first_at(b, seq![0x3eu8], i);
            let end = text::first_at(b, seq![0x3eu8], i);
            lemma_seen_from(
                b,
                if end < b.len() {
                    end + 1
                } else {
                    end
                },
            );
        }
    }
}

/// The bytes of a text that are not white space.
pub open spec fn inked(b: Seq<u8>) -> nat
    decreases b.len(),
{
    if b.len() == 0 {
        0
    } else if text::space_byte(b[0]) {
        inked(b.drop_first())
    } else {
        inked(b.drop_first()) + 1
    }
}

/// What is seen from a place on depends on what stands from there on alone.
proof fn lemma_seen_behind(a: Seq<u8>, b: Seq<u8>, i: int)
    requires
        0 <= i,
    ensures
        seen_from(a + b, a.len() + i) == seen_from(b, i),
    decreases b.len() - i,
{
    let s = a + b;
    let n = a.len() as int;
    if i < b.len() {
        assert(s[n + i] == b[i]);
        let gt = seq![0x3eu8];
        let open_script = text::ascii("<script"@);
        let close_script = text::ascii("</script"@);
        let open_style = text::ascii("<style"@);
        let close_style = text::ascii("</style"@);
        lemma_occurs_behind(a, b, open_script, i);
        lemma_occurs_behind(a, b, open_style, i);
        if b[i] != 0x3c {
            lemma_seen_behind(a, b, i + 1);
        } else if text::occurs_at(b, open_script, i) {
            reveal_strlit("<script");
            reveal_strlit("</script");
            lemma_block(b, "<script", "</script", i);
            lemma_first_behind(a, b, close_script, i);
            lemma_seen_behind(a, b, text::first_at(b, close_script, i));
        } else if text::occurs_at(b, open_style, i) {
            reveal_strlit("<style");
            reveal_strlit("</style");
            lemma_block(b, "<style", "</style", i);
            lemma_first_behind(a, b, close_style, i);
            lemma_seen_behind(a, b, text::first_at(b, close_style, i));
        } else {
            text::lemma_first_at(b, gt, i);
            lemma_first_behind(a, b, gt, i);
            let end = text::first_at(b, gt, i);
            lemma_seen_behind(
                a,
                b,
                if end < b.len() {
                    end + 1
                } else {
                    end
                },
            );
        }
    }
}

proof fn lemma_occurs_behind(a: Seq<u8>, b: Seq<u8>, pat: Seq<u8>, i: int)
    requires
        0 <= i,
    ensures
        text::occurs_at(a + b, pat, a.len() + i) == text::occurs_at(b, pat, i),
{
    if i + pat.len() <= b.len() {
        assert((a + b).subrange(a.len() + i, a.len() + i + pat.len()) =~= b.subrange(
            i,
            i + pat.len(),
        ));
    }
}

proof fn lemma_first_behind(a: Seq<u8>, b: Seq<u8>, pat: Seq<u8>, i: int)
    requires
        0 <= i <= b.len(),
    ensures
        text::first_at(a + b, pat, a.len() + i) == a.len() + text::first_at(b, pat, i),
    decreases b.len() - i,
{
    lemma_occurs_behind(a, b, pat, i);
    if i < b.len() && !text::occurs_at(b, pat, i) {
        lemma_first_behind(a, b, pat, i + 1);
    }
}

proof fn lemma_seen_text(t: Seq<u8>, b: Seq<u8>)
    requires
        forall|i: int| 0 <= i < t.len() ==> t[i] != 0x3c,
    ensures
        seen_from(t + b, 0) == (seen_from(b, 0).0 + inked(t), seen_from(b, 0).1),
    decreases t.len(),
{
    if t.len() == 0 {
        assert(t + b =~= b);
    } else {
        let one = t.take(1);
        let rest = t.drop_first();
        assert(t + b =~= one + (rest + b));
        lemma_seen_behind(one, rest + b, 0);
        lemma_seen_text(rest, b);
    }
}

/// Text before a page without any `<` adds its bytes that are not white space to what is
/// visible, and nothing else.
pub proof fn plain_text_is_visible(t: Seq<char>, html: Seq<char>)
    requires
        !t.contains('<'),
    ensures
        seen(t + html) == (seen(html).0 + inked(encode_utf8(t)), seen(html).1),
{
    let e = encode_utf8(t);
    let l = lower_bytes(e);
    text::lemma_encode_concat(t, html);
    assert(lower_bytes(encode_utf8(t + html)) =~= l + lower_bytes(encode_utf8(html)));
    text::lemma_no_byte(t, '<');
    lemma_seen_text(l, lower_bytes(encode_utf8(html)));
    lemma_inked_lower(e);
}

proof fn lemma_inked_lower(b: Seq<u8>)
    ensures
        inked(lower_bytes(b)) == inked(b),
    decreases b.len(),
{
    if b.len() > 0 {
        assert(lower_bytes(b).drop_first() =~= lower_bytes(b.drop_first()));
        lemma_inked_lower(b.drop_first());
    }
}

/// Whether the letters of the alphabet are written large or small makes no difference to what
/// is seen of a page.
pub proof fn case_does_not_matter(a: Seq<char>, b: Seq<char>)
    requires
        lower_bytes(encode_utf8(a)) == lower_bytes(encode_utf8(b)),
    ensures
        seen(a) == seen(b),
{
}

/// A text with its ASCII letters in upper case.
pub open spec fn shouted(s: Seq<char>) -> Seq<char> {
    Seq::new(
        s.len(),
        |i: int|
            if 'a' <= s[i] <= 'z' {
                ((s[i] as u32 - 32) as u32) as char
            } else {
                s[i]
            },
    )
}

/// A page in capital letters shows as much as the page.
pub proof fn capitals_do_not_matter(html: Seq<char>)
    ensures
        seen(shouted(html)) == seen(html),
{
    lemma_shouted(html);
    case_does_not_matter(shouted(html), html);
}

proof fn lemma_shouted(s: Seq<char>)
    ensures
        lower_bytes(encode_utf8(shouted(s))) == lower_bytes(encode_utf8(s)),
    decreases s.len(),
{
    let u = shouted(s);
    if s.len() == 0 {
        assert(u =~= s);
    } else {
        let rest = s.drop_first();
        lemma_shouted(rest);
        assert(u =~= seq![u[0]] + shouted(rest));
        assert(s =~= seq![s[0]] + rest);
        text::lemma_encode_concat(seq![u[0]], shouted(rest));
        text::lemma_encode_concat(seq![s[0]], rest);
        let x = encode_utf8(seq![u[0]]);
        let y = encode_utf8(seq![s[0]]);
        if 'a' <= s[0] <= 'z' {
            text::lemma_ascii_byte(u[0]);
            text::lemma_ascii_byte(s[0]);
            assert(lower_bytes(x) =~= lower_bytes(y));
        }
        assert(lower_bytes(x + encode_utf8(shouted(rest))) =~= lower_bytes(x) + lower_bytes(
            encode_utf8(shouted(rest)),
        ));
        assert(lower_bytes(y + encode_utf8(rest)) =~= lower_bytes(y) + lower_bytes(
            encode_utf8(rest),
        ));
    }
}

// ── The ladder ──────────────────────────────────────────────────────────────

/// Which rung of the ladder produced the HTML. Returned to the caller so that it can reason
/// about cost and trust without guessing.
#[derive(Debug, Clone, Copy, PartialEq, Eq, Structural)]
pub enum Tier {
    Http,
    Chrome,
}

impl Tier {
    /// The name of a tier.
    pub open spec fn called(self) -> Seq<char> {
        match self {
            Tier::Http => "http"@,
            Tier::Chrome => "chrome"@,
        }
    }

    /// The name of the tier, in lower case.
    pub fn name(self) -> (r: String)
        ensures
            r@ == self.called(),
    {
        match self {
            Tier::Http => "http".to_owned(),
            Tier::Chrome => "chrome".to_owned(),
        }
    }
}

/// What a tier brought back.
pub struct Fetched {
    pub html: String,
    pub tier: Tier,
    pub status: u16,
    /// True when the page is a challenge or a shell. The caller must be told this rather than
    /// handed an interstitial as if it were content.
    pub blocked: bool,
    /// Why the final tier looked blocked, in plain words.
    pub reason: Option<String>,
    /// Why the cheap tier looked blocked, kept after escalation to say what it was for.
    pub first_reason: Option<String>,
    /// True when the cheap tier was refused and the browser had to be used.
    pub escalated: bool,
    /// Status from the cheap tier, kept for diagnostics after escalation.
    pub first_status: u16,
}

impl Fetched {
    /// A page is blocked exactly when there is a reason, and the reason is the one that its
    /// status and markup give.
    pub open spec fn honest(self) -> bool {
        &&& text::opt(self.reason) == wall(self.status, self.html@)
        &&& self.blocked == self.reason is Some
    }

    /// What the cheap tier brought back.
    pub fn from_http(status: u16, html: String) -> (r: Fetched)
        ensures
            r.honest(),
            r.html@ == html@,
            r.tier == Tier::Http,
            r.status == status,
            text::opt(r.first_reason) == wall(status, html@),
            !r.escalated,
            r.first_status == status,
    {
        let reason = block_reason(status, html.as_str());
        Fetched {
            blocked: reason.is_some(),
            first_reason: text::copy_opt(&reason),
            reason,
            html,
            tier: Tier::Http,
            status,
            escalated: false,
            first_status: status,
        }
    }

    /// What the browser brought back after the cheap tier was blocked.
    pub fn from_browser(html: String, first_status: u16, first_reason: Option<String>) -> (r:
        Fetched)
        ensures
            r.honest(),
            r.html@ == html@,
            r.tier == Tier::Chrome,
            r.status == 200,
            r.first_reason == first_reason,
            r.escalated,
            r.first_status == first_status,
    {
        let reason = block_reason(200, html.as_str());
        Fetched {
            blocked: reason.is_some(),
            reason,
            first_reason,
            html,
            tier: Tier::Chrome,
            status: 200,
            escalated: true,
            first_status,
        }
    }

    /// What the browser brought back after the actions that the caller asked for.
    pub fn from_actions(html: String) -> (r: Fetched)
        ensures
            r.honest(),
            r.html@ == html@,
            r.tier == Tier::Chrome,
            r.status == 200,
            r.first_reason is None,
            r.escalated,
            r.first_status == 200,
    {
        Fetched::from_browser(html, 200, None)
    }
}

/// Whether the browser has to be asked: the cheap tier failed, or brought back a wall.
pub open spec fn needs_browser(cheap: Option<Fetched>) -> bool {
    cheap is None || cheap->0.blocked
}

/// What the ladder answers, if the browser's answer is `browser` where it is asked. Where it
/// answers nothing, the call has failed.
pub open spec fn answer(cheap: Option<Fetched>, browser: Option<Fetched>) -> Option<Fetched> {
    if !needs_browser(cheap) || browser is None {
        cheap
    } else {
        browser
    }
}

/// Status and reason to escalate with; nothing where the cheap answer stands.
pub fn escalation(cheap: &Option<Fetched>) -> (r: Option<(u16, Option<String>)>)
    ensures
        r is Some <==> needs_browser(*cheap),
        r matches Some(e) ==> match *cheap {
            Some(f) => e.0 == f.status && e.1 == f.reason,
            None => e.0 == 0 && e.1 is None,
        },
{
    match cheap {
        Some(f) => if f.blocked {
            Some((f.status, text::copy_opt(&f.reason)))
        } else {
            None
        },
        None => Some((0, None)),
    }
}

/// The answer once the browser was asked: its own, or, where it could not be used, the blocked
/// answer of the cheap tier rather than none.
pub fn settle(cheap: Option<Fetched>, browser: Option<Fetched>) -> (r: Option<Fetched>)
    requires
        needs_browser(cheap),
    ensures
        r == answer(cheap, browser),
{
    match browser {
        Some(f) => Some(f),
        None => cheap,
    }
}

/// Whether to look at the page again: interstitials redirect themselves after a few seconds,
/// so a wall is waited for until the deadline, and a clean page is taken at once.
pub fn look_again(html: &str, before_deadline: bool) -> (r: bool)
    ensures
        r == (before_deadline && wall(200, html@) is Some),
{
    before_deadline && block_reason(200, html).is_some()
}

/// Whatever the tiers bring back, the answer is one of theirs, it is flagged as blocked exactly
/// when it is a wall, and a clean page from either tier that was asked is never passed over
/// for a wall.
pub proof fn ladder_answers_honestly(cheap: Option<Fetched>, browser: Option<Fetched>)
    requires
        cheap matches Some(f) ==> f.honest(),
        browser matches Some(f) ==> f.honest(),
    ensures
        answer(cheap, browser) is None <==> cheap is None && browser is None,
        answer(cheap, browser) matches Some(f) ==> {
            &&& f.honest()
            &&& Some(f) == cheap || Some(f) == browser
            &&& f.blocked <==> {
                &&& cheap matches Some(c) ==> c.blocked
                &&& browser matches Some(b) ==> b.blocked || !needs_browser(cheap)
            }
        },
{
}

// ── What counts as a wall ───────────────────────────────────────────────────

/// A page is turned away with the status 401, 403, 429 or 503, whatever it shows, and the reason
/// gives the status.
pub proof fn refusals_are_walls(status: u16, html: Seq<char>)
    requires
        status == 401 || status == 403 || status == 429 || status == 503,
    ensures
        wall(status, html) == Some("HTTP "@ + text::decimal(status as nat) + " from origin"@),
{
}

/// A response of less than five hundred bytes is a wall.
pub proof fn tiny_responses_are_walls(status: u16, html: Seq<char>)
    requires
        encode_utf8(html).len() < 500,
    ensures
        wall(status, html) is Some,
{
}

/// What challenge pages and interstitials are told by.
pub open spec fn wall_signatures() -> Seq<Seq<char>> {
    seq![
        "/cdn-cgi/challenge-platform"@,
        "captcha-delivery.com"@,
        "_incapsula_resource"@,
        "px-captcha"@,
        "/_sec/cp_challenge"@,
        "geo.captcha"@,
        "just a moment"@,
        "cf-browser-verification"@,
        "checking your browser"@,
        "cf_chl_opt"@,
        "enable javascript and cookies to continue"@,
        "attention required! | cloudflare"@,
        "__cf_chl"@,
        "please enable js"@,
        "please enable javascript"@,
        "verifying you are human"@,
    ]
}

/// A page of less than sixty thousand bytes and at most 16384 characters that holds one of the
/// signatures of a wall, in whatever case, is a wall.
pub proof fn signatures_on_small_pages_are_walls(status: u16, html: Seq<char>, k: int)
    requires
        encode_utf8(html).len() < 60000,
        html.len() <= 16384,
        0 <= k < 16,
        text::contains(unicode::lowercase(html), wall_signatures()[k]),
    ensures
        wall(status, html) is Some,
{
    assert(html.take(html.len() as int) =~= html);
}

/// Only the first 16384 characters of a page are searched for signatures, all of them if it has no
/// more, in lower case.
pub proof fn heads_are_searched(html: Seq<char>)
    ensures
        html.len() <= 16384 ==> head_of(html) == unicode::lowercase(html),
        html.len() > 16384 ==> head_of(html) == unicode::lowercase(html.take(16384)),
{
    if html.len() <= 16384 {
        assert(html.take(html.len() as int) =~= html);
    }
}

/// An ordinary page is no wall: one that was not turned away, has at least five hundred bytes, is
/// large or holds no signature, and shows text, or has little script, or no more than twice as
/// much script as text.
pub proof fn ordinary_pages_are_no_walls(status: u16, html: Seq<char>)
    requires
        status != 401 && status != 403 && status != 429 && status != 503,
        encode_utf8(html).len() >= 500,
        encode_utf8(html).len() >= 60000 || forall|k: int|
            0 <= k < 16 ==> !text::contains(head_of(html), #[trigger] wall_signatures()[k]),
        seen(html).0 >= 500 || seen(html).1 <= 500 || seen(html).1 <= 2 * seen(html).0,
    ensures
        wall(status, html) is None,
{
    if encode_utf8(html).len() < 60000 {
        let w = wall_signatures();
        let h = head_of(html);
        assert(!text::contains(h, w[0]) && !text::contains(h, w[1]) && !text::contains(h, w[2]));
        assert(!text::contains(h, w[3]) && !text::contains(h, w[4]) && !text::contains(h, w[5]));
        assert(!text::contains(h, w[6]) && !text::contains(h, w[7]) && !text::contains(h, w[8]));
        assert(!text::contains(h, w[9]) && !text::contains(h, w[10]) && !text::contains(h, w[11]));
        assert(!text::contains(h, w[12]) && !text::contains(h, w[13]) && !text::contains(h, w[14]));
        assert(!text::contains(h, w[15]));
    }
}

/// A page that shows less than five hundred bytes of text but holds more than five hundred bytes
/// of script, and more than twice as much as text, is a wall, in whatever language and of
/// whatever size.
pub proof fn shells_are_walls(status: u16, html: Seq<char>)
    requires
        seen(html).0 < 500 && seen(html).1 > 500 && seen(html).1 > 2 * seen(html).0,
    ensures
        wall(status, html) is Some,
{
}

/// The vendor of a challenge is named by its infrastructure, by the first that is found in this
/// order.
pub proof fn challenges_name_their_vendor(status: u16, html: Seq<char>)
    requires
        status != 401 && status != 403 && status != 429 && status != 503,
        500 <= encode_utf8(html).len() < 60000,
    ensures
        ({
            let h = head_of(html);
            let w = wall(status, html);
            let cloudflare = text::contains(h, "/cdn-cgi/challenge-platform"@);
            let datadome = text::contains(h, "captcha-delivery.com"@);
            let imperva = text::contains(h, "_incapsula_resource"@);
            let perimeter = text::contains(h, "px-captcha"@);
            let akamai = text::contains(h, "/_sec/cp_challenge"@);
            let geo = text::contains(h, "geo.captcha"@);
            let none = !cloudflare && !datadome && !imperva && !perimeter && !akamai;
            &&& cloudflare ==> w == Some("Cloudflare"@ + " challenge page"@)
            &&& !cloudflare && datadome ==> w == Some("DataDome"@ + " challenge page"@)
            &&& !cloudflare && !datadome && imperva ==> w == Some("Imperva"@ + " challenge page"@)
            &&& !cloudflare && !datadome && !imperva && perimeter ==> w == Some(
                "PerimeterX"@ + " challenge page"@,
            )
            &&& !cloudflare && !datadome && !imperva && !perimeter && akamai ==> w == Some(
                "Akamai"@ + " challenge page"@,
            )
            &&& none && geo ==> w == Some("DataDome"@ + " challenge page"@)
        }),
{
}

/// A wall is explained by what it is: a tiny response, the words of an interstitial, or a shell with
/// the bytes of its text and of its script.
pub proof fn walls_are_explained(status: u16, html: Seq<char>)
    requires
        status != 401 && status != 403 && status != 429 && status != 503,
    ensures
        encode_utf8(html).len() < 500 ==> wall(status, html) == Some("near-empty response body"@),
        encode_utf8(html).len() >= 60000 && seen(html).0 < 500 && seen(html).1 > 500 && seen(html).1
            > 2 * seen(html).0 ==> (wall(status, html) matches Some(w) && text::starts_with(
            w,
            "thin body dominated by scripts ("@ + text::decimal(seen(html).0),
        ) && text::contains(w, text::decimal(seen(html).1))),
        500 <= encode_utf8(html).len() < 60000 && (forall|k: int|
            0 <= k < 6 ==> !text::contains(head_of(html), #[trigger] wall_signatures()[k]))
            && (exists|k: int|
            6 <= k < 16 && text::contains(head_of(html), #[trigger] wall_signatures()[k])) ==> wall(
            status,
            html,
        ) == Some("bot interstitial text"@),
{
    let w = wall_signatures();
    let h = head_of(html);
    if forall|k: int| 0 <= k < 6 ==> !text::contains(h, #[trigger] w[k]) {
        assert(!text::contains(h, w[0]) && !text::contains(h, w[1]) && !text::contains(h, w[2]));
        assert(!text::contains(h, w[3]) && !text::contains(h, w[4]) && !text::contains(h, w[5]));
    }
    let a = "thin body dominated by scripts ("@;
    let b = text::decimal(seen(html).0);
    let c = "B text vs "@;
    let d = text::decimal(seen(html).1);
    let e = "B script) - challenge page or client-rendered shell"@;
    let r = a + b + c + d + e;
    assert(r =~= (a + b) + (c + d + e));
    text::what_is_put_in_is_found(Seq::empty(), a + b, c + d + e);
    text::what_is_put_in_is_found(a + b + c, d, e);
}

proof fn lemma_inked_concat(a: Seq<u8>, b: Seq<u8>)
    ensures
        inked(a + b) == inked(a) + inked(b),
    decreases a.len(),
{
    if a.len() == 0 {
        assert(a + b =~= b);
    } else {
        assert((a + b)[0] == a[0]);
        assert((a + b).drop_first() =~= a.drop_first() + b);
        lemma_inked_concat(a.drop_first(), b);
    }
}

/// Bytes are counted one by one, and white space is not: blank, tabulator and line ends.
pub proof fn white_space_is_not_counted(b: Seq<u8>, x: u8)
    ensures
        x == 0x20 || x == 0x09 || x == 0x0a || x == 0x0d ==> inked(b.push(x)) == inked(b),
        x > 0x20 ==> inked(b.push(x)) == inked(b) + 1,
        inked(Seq::<u8>::empty()) == 0,
{
    let one = seq![x];
    assert(b.push(x) =~= b + one);
    lemma_inked_concat(b, one);
    assert(one.drop_first() =~= Seq::<u8>::empty());
    assert(inked(one.drop_first()) == 0);
}

proof fn lemma_lower_ascii(s: &str)
    requires
        is_ascii_chars(s@),
        forall|i: int| 0 <= i < s@.len() ==> !('A' <= #[trigger] s@[i] <= 'Z'),
    ensures
        lower_bytes(encode_utf8(s@)) == text::ascii(s@),
{
    is_ascii_chars_encode_utf8(s@);
    assert(lower_bytes(encode_utf8(s@)) =~= text::ascii(s@)) by {
        assert forall|i: int| 0 <= i < s@.len() implies lower_bytes(encode_utf8(s@))[i]
            == #[trigger] text::ascii(s@)[i] by {
            lemma_small_byte(s@[i]);
        }
    }
}

proof fn lemma_small_byte(c: char)
    requires
        c as u32 <= 0x7f,
        !('A' <= c <= 'Z'),
    ensures
        lower_byte(c as u8) == c as u8,
{
}

proof fn lemma_lower_concat(a: Seq<char>, b: Seq<char>)
    ensures
        lower_bytes(encode_utf8(a + b)) == lower_bytes(encode_utf8(a)) + lower_bytes(
            encode_utf8(b),
        ),
{
    text::lemma_encode_concat(a, b);
    assert(lower_bytes(encode_utf8(a + b)) =~= lower_bytes(encode_utf8(a)) + lower_bytes(
        encode_utf8(b),
    ));
}

proof fn lemma_block_seen(p: Seq<u8>, x: Seq<u8>, c: Seq<u8>, r: Seq<u8>)
    requires
        p.len() >= 2 && c.len() >= 2,
        p[0] == 0x3c && c[0] == 0x3c && p[1] != c[1],
        forall|i: int| 1 <= i < p.len() ==> #[trigger] p[i] != 0x3c,
        forall|i: int| 0 <= i < x.len() ==> #[trigger] x[i] != 0x3c,
    ensures
        text::first_at(p + x + (c + r), c, 0) == p.len() + x.len(),
        text::occurs_at(p + x + (c + r), p, 0),
{
    let b = p + x + (c + r);
    let n = (p.len() + x.len()) as int;
    assert(b.subrange(0, p.len() as int) =~= p);
    assert(b.subrange(n, n + c.len()) =~= c);
    assert(text::occurs_at(b, c, n));
    assert forall|j: int| 0 <= j < n implies !text::occurs_at(b, c, j) by {
        if text::occurs_at(b, c, j) {
            let w = b.subrange(j, j + c.len());
            assert(w[0] == b[j] && w[1] == b[j + 1]);
            if j == 0 {
                assert(b[1] == p[1]);
            } else if j < p.len() {
                assert(b[j] == p[j]);
            } else {
                assert(b[j] == x[j - p.len()]);
            }
        }
    }
    text::lemma_first_at_found(b, c, 0);
    text::lemma_first_at(b, c, 0);
    let g = text::first_at(b, c, 0);
    if g < n {
        assert(text::occurs_at(b, c, g));
    } else if g > n {
        assert(!text::occurs_at(b, c, n));
    }
}

/// A script shows nothing: all of it up to its closing tag counts as script.
pub proof fn scripts_are_not_seen(x: Seq<char>, r: Seq<char>)
    requires
        !x.contains('<'),
    ensures
        ({
            let rest = "</script"@ + r;
            seen("<script"@ + x + rest) == (
                seen(rest).0,
                (seen(rest).1 + 7 + encode_utf8(x).len()) as nat,
            )
        }),
{
    reveal_strlit("<script");
    reveal_strlit("</script");
    let rest = "</script"@ + r;
    let s = "<script"@ + x + rest;
    let p = text::ascii("<script"@);
    let c = text::ascii("</script"@);
    let xs = lower_bytes(encode_utf8(x));
    let rs = lower_bytes(encode_utf8(r));
    lemma_lower_ascii("<script");
    lemma_lower_ascii("</script");
    lemma_lower_concat("</script"@, r);
    lemma_lower_concat("<script"@ + x, rest);
    lemma_lower_concat("<script"@, x);
    let b = p + xs + (c + rs);
    assert(lower_bytes(encode_utf8(s)) == b);
    text::lemma_no_byte(x, '<');
    assert forall|i: int| 0 <= i < xs.len() implies #[trigger] xs[i] != 0x3c by {
        assert(encode_utf8(x)[i] != 0x3c);
    }
    assert(p[0] == 0x3c && p[1] == 0x73 && c[0] == 0x3c && c[1] == 0x2f);
    lemma_block_seen(p, xs, c, rs);
    lemma_seen_behind(p + xs, c + rs, 0);
    assert(b[0] == 0x3c);
    lemma_block(b, "<script", "</script", 0);
}

/// Neither does a style.
pub proof fn styles_are_not_seen(x: Seq<char>, r: Seq<char>)
    requires
        !x.contains('<'),
    ensures
        ({
            let rest = "</style"@ + r;
            seen("<style"@ + x + rest) == (
                seen(rest).0,
                (seen(rest).1 + 6 + encode_utf8(x).len()) as nat,
            )
        }),
{
    reveal_strlit("<style");
    reveal_strlit("</style");
    reveal_strlit("<script");
    let rest = "</style"@ + r;
    let s = "<style"@ + x + rest;
    let p = text::ascii("<style"@);
    let c = text::ascii("</style"@);
    let xs = lower_bytes(encode_utf8(x));
    let rs = lower_bytes(encode_utf8(r));
    lemma_lower_ascii("<style");
    lemma_lower_ascii("</style");
    lemma_lower_concat("</style"@, r);
    lemma_lower_concat("<style"@ + x, rest);
    lemma_lower_concat("<style"@, x);
    let b = p + xs + (c + rs);
    assert(lower_bytes(encode_utf8(s)) == b);
    text::lemma_no_byte(x, '<');
    assert forall|i: int| 0 <= i < xs.len() implies #[trigger] xs[i] != 0x3c by {
        assert(encode_utf8(x)[i] != 0x3c);
    }
    assert(p[0] == 0x3c && p[1] == 0x73 && p[2] == 0x74 && c[0] == 0x3c && c[1] == 0x2f);
    lemma_block_seen(p, xs, c, rs);
    lemma_seen_behind(p + xs, c + rs, 0);
    assert(b[0] == 0x3c && b[2] == 0x74);
    let script = text::ascii("<script"@);
    assert(script.len() == 7 && script[2] == 0x63);
    if text::occurs_at(b, script, 0) {
        assert(b.subrange(0, 7)[2] == b[2]);
    }
    lemma_block(b, "<style", "</style", 0);
}

/// A tag shows nothing, and what follows it is seen as if it were not there.
pub proof fn tags_are_not_seen(x: Seq<char>, r: Seq<char>)
    requires
        x.len() > 0,
        x[0] != 's' && x[0] != 'S',
        x[0] as u32 <= 0x7f,
        !x.contains('>'),
    ensures
        seen(seq!['<'] + x + (seq!['>'] + r)) == seen(r),
{
    let open: Seq<char> = seq!['<'];
    let close: Seq<char> = seq!['>'];
    let s = open + x + (close + r);
    let xs = lower_bytes(encode_utf8(x));
    let rs = lower_bytes(encode_utf8(r));
    text::lemma_ascii_byte('<');
    text::lemma_ascii_byte('>');
    lemma_lower_concat(close, r);
    lemma_lower_concat(open + x, close + r);
    lemma_lower_concat(open, x);
    let o = seq![0x3cu8];
    let gt = seq![0x3eu8];
    assert(lower_bytes(encode_utf8(open)) =~= o);
    assert(lower_bytes(encode_utf8(close)) =~= gt);
    let b = o + xs + (gt + rs);
    assert(lower_bytes(encode_utf8(s)) == b);
    text::lemma_no_byte(x, '>');
    let n = 1 + xs.len() as int;
    assert(b[0] == 0x3c);
    assert forall|j: int| 0 <= j < n implies !text::occurs_at(b, gt, j) by {
        if text::occurs_at(b, gt, j) {
            assert(b.subrange(j, j + 1)[0] == b[j]);
            if j > 0 {
                assert(b[j] == xs[j - 1]);
                assert(encode_utf8(x)[j - 1] != 0x3e);
            }
        }
    }
    assert(b.subrange(n, n + 1) =~= gt);
    text::lemma_first_at_found(b, gt, 0);
    text::lemma_first_at(b, gt, 0);
    let g = text::first_at(b, gt, 0);
    assert(text::occurs_at(b, gt, n));
    if g < n {
        assert(text::occurs_at(b, gt, g));
    } else if g > n {
        assert(!text::occurs_at(b, gt, n));
    }
    assert(b[1] == xs[0]);
    lemma_first_byte(x);
    reveal_strlit("<script");
    reveal_strlit("<style");
    let script = text::ascii("<script"@);
    let style = text::ascii("<style"@);
    assert(script.len() == 7 && script[1] == 0x73);
    assert(style.len() == 6 && style[1] == 0x73);
    if text::occurs_at(b, script, 0) {
        assert(b.subrange(0, 7)[1] == b[1]);
    }
    if text::occurs_at(b, style, 0) {
        assert(b.subrange(0, 6)[1] == b[1]);
    }
    assert(o + xs + (gt + rs) =~= (o + xs + gt) + rs);
    lemma_seen_behind(o + xs + gt, rs, 0);
    assert((o + xs + gt).len() == n + 1);
}

proof fn lemma_first_byte(x: Seq<char>)
    requires
        x.len() > 0,
        x[0] as u32 <= 0x7f,
        x[0] != 's' && x[0] != 'S',
    ensures
        encode_utf8(x).len() > 0,
        lower_byte(encode_utf8(x)[0]) != 0x73,
{
    text::lemma_ascii_byte(x[0]);
    let rest = x.drop_first();
    assert(seq![x[0]] + rest =~= x);
    text::lemma_encode_concat(seq![x[0]], rest);
    assert(encode_utf8(x)[0] == x[0] as u8);
    lemma_not_s(x[0]);
}

proof fn lemma_not_s(c: char)
    requires
        c as u32 <= 0x7f,
        c != 's' && c != 'S',
    ensures
        lower_byte(c as u8) != 0x73,
{
}

/// A clean answer of the cheap tier stands. A blocked one, or none, is left for what the browser
/// brings, if it brings anything; and stands otherwise.
pub proof fn the_browser_answers_for_walls(cheap: Option<Fetched>, browser: Option<Fetched>)
    ensures
        (cheap matches Some(c) && !c.blocked) ==> answer(cheap, browser) == cheap,
        (cheap matches Some(c) ==> c.blocked) && browser is Some ==> answer(cheap, browser)
            == browser,
        browser is None ==> answer(cheap, browser) == cheap,
        needs_browser(cheap) <==> (cheap matches Some(c) ==> c.blocked),
{
}

/// A fetch that is honest is flagged as blocked exactly if its status and its markup make a wall,
/// and says why.
pub proof fn honest_fetches_flag_walls(f: Fetched)
    requires
        f.honest(),
    ensures
        f.blocked <==> wall(f.status, f.html@) is Some,
        f.blocked ==> (f.reason matches Some(r) && wall(f.status, f.html@) == Some(r@)),
        !f.blocked ==> f.reason is None,
{
}

} // verus!
