//! Addresses: which ones may be fetched, and when two of them are the same page.

use crate::bindings::url;
use crate::bindings::url::UrlParts;
use crate::text;
use vstd::prelude::*;
use vstd::utf8::*;

verus! {

// ── Numeric hosts ───────────────────────────────────────────────────────────

/// The value of decimal digits.
pub open spec fn value(s: Seq<char>) -> nat
    decreases s.len(),
{
    if s.len() == 0 {
        0
    } else {
        value(s.drop_last()) * 10 + ((s.last() as u32 - '0' as u32) as nat)
    }
}

/// The value of a decimal notation is the number that it stands for.
proof fn lemma_value_of_decimal(n: nat)
    ensures
        value(text::decimal(n)) == n,
    decreases n,
{
    let d = text::decimal(n);
    assert(text::digit(n % 10) as u32 == 48 + n % 10);
    if n >= 10 {
        lemma_value_of_decimal(n / 10);
        assert(d.drop_last() == text::decimal(n / 10));
    } else {
        assert(d.drop_last() == Seq::<char>::empty());
        reveal_with_fuel(value, 2);
    }
}

/// A number below 256 in decimal notation, as it stands in a numeric host: without leading
/// zeros.
pub fn parse_octet(s: &str) -> (r: Option<u8>)
    ensures
        match r {
            Some(n) => s@ == text::decimal(n as nat),
            None => forall|n: u8| s@ != #[trigger] text::decimal(n as nat),
        },
{
    let c = text::to_chars(s);
    let mut v: u32 = 0;
    let mut i: usize = 0;
    assert(c@.take(0) == Seq::<char>::empty());
    while i < c.len()
        invariant
            i <= c@.len(),
            c@ == s@,
            v <= 255,
            v == value(c@.take(i as int)),
            forall|j: int| 0 <= j < i ==> '0' <= #[trigger] c@[j] <= '9',
        decreases c@.len() - i,
    {
        assert(c@.take(i + 1).drop_last() == c@.take(i as int));
        if c[i] < '0' || c[i] > '9' {
            proof {
                assert forall|n: u8| s@ != #[trigger] text::decimal(n as nat) by {
                    text::lemma_decimal_digits(n as nat);
                }
            }
            return None;
        }
        v = v * 10 + (c[i] as u32 - '0' as u32);
        if v > 255 {
            proof {
                assert forall|n: u8| s@ != #[trigger] text::decimal(n as nat) by {
                    if s@ == text::decimal(n as nat) {
                        text::lemma_decimal_digits(n as nat);
                        lemma_value_of_decimal(n as nat);
                        lemma_value_grows(c@, i + 1);
                    }
                }
            }
            return None;
        }
        i += 1;
    }
    assert(c@.take(i as int) == c@);
    let shown = text::show(v as usize);
    if text::same(shown.as_str(), s) {
        Some(v as u8)
    } else {
        proof {
            assert forall|n: u8| s@ != #[trigger] text::decimal(n as nat) by {
                lemma_value_of_decimal(n as nat);
            }
        }
        None
    }
}

/// More digits never make a number smaller.
proof fn lemma_value_grows(s: Seq<char>, k: int)
    requires
        0 <= k <= s.len(),
        forall|j: int| 0 <= j < s.len() ==> '0' <= #[trigger] s[j] <= '9',
    ensures
        value(s.take(k)) <= value(s),
    decreases s.len() - k,
{
    if k < s.len() {
        lemma_value_grows(s, k + 1);
        assert(s.take(k + 1).drop_last() == s.take(k));
        assert('0' <= s[k] <= '9');
    } else {
        assert(s.take(k) == s);
    }
}

/// Four numbers written with a dot between each two of them.
pub open spec fn dotted(a: u8, b: u8, c: u8, d: u8) -> Seq<char> {
    text::decimal(a as nat) + seq!['.'] + (text::decimal(b as nat) + seq!['.'] + (text::decimal(
        c as nat,
    ) + seq!['.'] + text::decimal(d as nat)))
}

/// Loopback, unspecified, private and link-local addresses.
pub open spec fn internal(a: u8, b: u8, c: u8, d: u8) -> bool {
    ||| a == 127
    ||| a == 0 && b == 0 && c == 0 && d == 0
    ||| a == 10
    ||| a == 172 && 16 <= b <= 31
    ||| a == 192 && b == 168
    ||| a == 169 && b == 254
}

/// The host is a numeric one that lies inside a network.
pub open spec fn internal_host(host: Seq<char>) -> bool {
    exists|a: u8, b: u8, c: u8, d: u8|
        host == #[trigger] dotted(a, b, c, d) && internal(a, b, c, d)
}

/// The pieces of a dotted host are its numbers.
proof fn lemma_dotted_pieces(a: u8, b: u8, c: u8, d: u8)
    ensures
        text::pieces(dotted(a, b, c, d), seq!['.']) == seq![
            text::decimal(a as nat),
            text::decimal(b as nat),
            text::decimal(c as nat),
            text::decimal(d as nat),
        ],
{
    text::lemma_decimal_digits(a as nat);
    text::lemma_decimal_digits(b as nat);
    text::lemma_decimal_digits(c as nat);
    text::lemma_decimal_digits(d as nat);
    let pd = text::decimal(d as nat);
    let pc = text::decimal(c as nat) + seq!['.'] + pd;
    let pb = text::decimal(b as nat) + seq!['.'] + pc;
    text::lemma_pieces(text::decimal(d as nat), '.', seq![]);
    text::lemma_pieces(text::decimal(c as nat), '.', pd);
    text::lemma_pieces(text::decimal(b as nat), '.', pc);
    text::lemma_pieces(text::decimal(a as nat), '.', pb);
    assert(text::pieces(dotted(a, b, c, d), seq!['.']) =~= seq![
        text::decimal(a as nat),
        text::decimal(b as nat),
        text::decimal(c as nat),
        text::decimal(d as nat),
    ]);
}

/// Four pieces joined with dots.
proof fn lemma_four_joined(p: Seq<Seq<char>>)
    requires
        p.len() == 4,
    ensures
        text::joined(p, seq!['.']) == p[0] + seq!['.'] + (p[1] + seq!['.'] + (p[2] + seq!['.']
            + p[3])),
{
    let dot = seq!['.'];
    assert(p =~= seq![p[0]] + p.skip(1));
    text::lemma_joined_first(p[0], p.skip(1), dot);
    assert(p.skip(1) =~= seq![p[1]] + p.skip(2));
    text::lemma_joined_first(p[1], p.skip(2), dot);
    assert(p.skip(2) =~= seq![p[2]] + p.skip(3));
    text::lemma_joined_first(p[2], p.skip(3), dot);
    assert(p.skip(3) =~= seq![p[3]]);
    reveal_with_fuel(text::joined, 2);
}

/// Whether a host is a numeric one that lies inside a network.
pub fn is_internal_host(host: &str) -> (r: bool)
    ensures
        r == internal_host(host@),
{
    proof {
        reveal_strlit(".");
        assert("."@ == seq!['.']);
    }
    let parts = text::split(host, ".");
    let ghost p = text::views(parts@);
    proof {
        assert forall|a: u8, b: u8, c: u8, d: u8| host@ == #[trigger] dotted(a, b, c, d) implies p
            == seq![
            text::decimal(a as nat),
            text::decimal(b as nat),
            text::decimal(c as nat),
            text::decimal(d as nat),
        ] by {
            lemma_dotted_pieces(a, b, c, d);
        }
    }
    assert(p.len() == parts@.len());
    if parts.len() != 4 {
        return false;
    }
    assert(p[0] == parts@[0]@ && p[1] == parts@[1]@ && p[2] == parts@[2]@ && p[3] == parts@[3]@);
    let a = parse_octet(parts[0].as_str());
    let b = parse_octet(parts[1].as_str());
    let c = parse_octet(parts[2].as_str());
    let d = parse_octet(parts[3].as_str());
    match (a, b, c, d) {
        (Some(a), Some(b), Some(c), Some(d)) => {
            proof {
                text::joining_undoes_splitting(host@, '.');
                lemma_four_joined(p);
                assert(host@ == dotted(a, b, c, d));
                assert forall|a2: u8, b2: u8, c2: u8, d2: u8|
                    host@ == #[trigger] dotted(a2, b2, c2, d2) implies a2 == a && b2 == b && c2
                    == c && d2 == d by {
                    text::decimal_is_injective(a as nat, a2 as nat);
                    text::decimal_is_injective(b as nat, b2 as nat);
                    text::decimal_is_injective(c as nat, c2 as nat);
                    text::decimal_is_injective(d as nat, d2 as nat);
                }
            }
            a == 127 || (a == 0 && b == 0 && c == 0 && d == 0) || a == 10 || (a == 172 && 16 <= b
                && b <= 31) || (a == 192 && b == 168) || (a == 169 && b == 254)
        },
        _ => false,
    }
}

// ── Validation ──────────────────────────────────────────────────────────────

/// Why an address is not fetched.
#[derive(Debug)]
pub enum UrlError {
    /// The text is no URL; the parser's message.
    Invalid(String),
    /// The scheme is not one of the web.
    Scheme(String),
    /// The host lies inside a network.
    Internal(String),
}

/// The contents of an error.
pub enum UrlErrorView {
    Invalid(Seq<char>),
    Scheme(Seq<char>),
    Internal(Seq<char>),
}

impl View for UrlError {
    type V = UrlErrorView;

    open spec fn view(&self) -> UrlErrorView {
        match self {
            UrlError::Invalid(m) => UrlErrorView::Invalid(m@),
            UrlError::Scheme(s) => UrlErrorView::Scheme(s@),
            UrlError::Internal(h) => UrlErrorView::Internal(h@),
        }
    }
}

impl UrlError {
    /// The error in words.
    pub fn message(&self) -> (r: String)
        ensures
            r@ == match self@ {
                UrlErrorView::Invalid(m) => m,
                UrlErrorView::Scheme(s) => "refusing non-http scheme: "@ + s,
                UrlErrorView::Internal(h) => "refusing private/loopback/link-local IP: "@ + h,
            },
    {
        match self {
            UrlError::Invalid(m) => m.clone(),
            UrlError::Scheme(s) => {
                let mut r = "refusing non-http scheme: ".to_owned();
                r.append(s.as_str());
                r
            },
            UrlError::Internal(h) => {
                let mut r = "refusing private/loopback/link-local IP: ".to_owned();
                r.append(h.as_str());
                r
            },
        }
    }
}

/// The scheme is one of the web.
pub open spec fn web_scheme(scheme: Seq<char>) -> bool {
    scheme == "http"@ || scheme == "https"@
}

/// Whether a scheme is one of the web.
pub fn is_web_scheme(scheme: &str) -> (r: bool)
    ensures
        r == web_scheme(scheme@),
{
    text::same(scheme, "http") || text::same(scheme, "https")
}

/// Why a parsed URL, given by its text, scheme and host, is not fetched, if it is not.
pub open spec fn objection(u: (Seq<char>, Seq<char>, Option<Seq<char>>)) -> Option<UrlErrorView> {
    if !web_scheme(u.1) {
        Some(UrlErrorView::Scheme(u.1))
    } else {
        match u.2 {
            Some(h) => if internal_host(h) {
                Some(UrlErrorView::Internal(h))
            } else {
                None
            },
            None => None,
        }
    }
}

/// Refuses schemes that are not of the web and numeric hosts inside a network. A host in
/// brackets, which is how IPv6 addresses stand in a URL, is not looked into.
pub fn check(u: &UrlParts) -> (r: Result<(), UrlError>)
    ensures
        match r {
            Ok(_) => objection(u@) is None,
            Err(e) => objection(u@) == Some(e@),
        },
{
    if !is_web_scheme(u.scheme.as_str()) {
        return Err(UrlError::Scheme(u.scheme.clone()));
    }
    if let Some(h) = &u.host {
        if is_internal_host(h.as_str()) {
            return Err(UrlError::Internal(h.clone()));
        }
    }
    Ok(())
}

/// Why an address is not fetched, if it is not.
pub open spec fn refusal(addr: Seq<char>) -> Option<UrlErrorView> {
    match url::url_parse(addr) {
        Ok(u) => objection(u),
        Err(m) => Some(UrlErrorView::Invalid(m)),
    }
}

/// Refuses what is no URL, what is not of the web, and numeric hosts inside a network.
pub fn validate(addr: &str) -> (r: Result<(), UrlError>)
    ensures
        match r {
            Ok(_) => refusal(addr@) is None,
            Err(e) => refusal(addr@) == Some(e@),
        },
{
    match url::parse(addr) {
        Ok(u) => check(&u),
        Err(m) => Err(UrlError::Invalid(m)),
    }
}

/// Only the web is fetched, and no numeric host inside a network.
pub proof fn only_the_web_is_fetched(addr: Seq<char>, a: u8, b: u8, c: u8, d: u8)
    requires
        refusal(addr) is None,
        internal(a, b, c, d),
    ensures
        url::url_parse(addr) matches Ok(u) && web_scheme(u.1) && u.2 != Some(dotted(a, b, c, d)),
{
}

// ── Normal form ─────────────────────────────────────────────────────────────

/// An address without the slash at its end, unless hardly more than the scheme is left.
pub open spec fn unslashed(s: Seq<char>) -> Seq<char> {
    if s.len() > 0 && s.last() == '/' && text::byte_len(s) > 8 {
        s.drop_last()
    } else {
        s
    }
}

/// The normal form of an address: without fragment and closing slash. What is no URL is its
/// own normal form.
pub open spec fn normal(addr: Seq<char>) -> Seq<char> {
    match url::url_without_fragment(addr) {
        Some(s) => unslashed(s),
        None => addr,
    }
}

/// An address without the slash at its end, unless hardly more than the scheme is left.
pub fn drop_slash(s: &str) -> (r: String)
    ensures
        r@ == unslashed(s@),
{
    let c = text::to_chars(s);
    if c.len() > 0 && c[c.len() - 1] == '/' && text::len(s) > 8 {
        let r = text::from_chars(&c, 0, c.len() - 1);
        assert(r@ == c@.drop_last());
        r
    } else {
        s.to_owned()
    }
}

/// The normal form of an address, by which pages are told apart.
pub fn normalize_url(addr: &str) -> (r: String)
    ensures
        r@ == normal(addr@),
{
    match url::without_fragment(addr) {
        Some(s) => drop_slash(s.as_str()),
        None => addr.to_owned(),
    }
}

// ── What an address must be ─────────────────────────────────────────────────

proof fn lemma_dotted_injective(a: u8, b: u8, c: u8, d: u8, e: u8, f: u8, g: u8, h: u8)
    requires
        dotted(a, b, c, d) == dotted(e, f, g, h),
    ensures
        a == e && b == f && c == g && d == h,
{
    lemma_dotted_pieces(a, b, c, d);
    lemma_dotted_pieces(e, f, g, h);
    let x = seq![
        text::decimal(a as nat),
        text::decimal(b as nat),
        text::decimal(c as nat),
        text::decimal(d as nat),
    ];
    let y = seq![
        text::decimal(e as nat),
        text::decimal(f as nat),
        text::decimal(g as nat),
        text::decimal(h as nat),
    ];
    assert(x == y);
    assert(x[0] == y[0] && x[1] == y[1] && x[2] == y[2] && x[3] == y[3]);
    text::decimal_is_injective(a as nat, e as nat);
    text::decimal_is_injective(b as nat, f as nat);
    text::decimal_is_injective(c as nat, g as nat);
    text::decimal_is_injective(d as nat, h as nat);
}

/// An address of the web with a numeric host is refused exactly if the host is a loopback address,
/// a private or a link-local one, or the unspecified one.
pub proof fn numeric_hosts_inside_a_network_are_refused(
    addr: Seq<char>,
    u: (Seq<char>, Seq<char>, Option<Seq<char>>),
    a: u8,
    b: u8,
    c: u8,
    d: u8,
)
    requires
        url::url_parse(addr) == Ok::<(Seq<char>, Seq<char>, Option<Seq<char>>), Seq<char>>(u),
        u.1 == "http"@ || u.1 == "https"@,
        u.2 == Some(
            text::decimal(a as nat) + seq!['.'] + (text::decimal(b as nat) + seq!['.'] + (
            text::decimal(c as nat) + seq!['.'] + text::decimal(d as nat))),
        ),
    ensures
        refusal(addr) is Some <==> {
            ||| a == 127
            ||| a == 10
            ||| a == 192 && b == 168
            ||| a == 172 && 16 <= b <= 31
            ||| a == 169 && b == 254
            ||| a == 0 && b == 0 && c == 0 && d == 0
        },
        refusal(addr) is Some ==> refusal(addr) == Some(UrlErrorView::Internal(u.2->0)),
{
    let h = dotted(a, b, c, d);
    if internal(a, b, c, d) {
        assert(internal_host(h));
    }
    if internal_host(h) {
        let (e, f, g, i) = choose|e: u8, f: u8, g: u8, i: u8|
            h == #[trigger] dotted(e, f, g, i) && internal(e, f, g, i);
        lemma_dotted_injective(a, b, c, d, e, f, g, i);
    }
}

/// An address of the web with a name for its host, which holds a letter or any other sign than
/// digits and dots, is not refused.
pub proof fn named_hosts_are_fetched(
    addr: Seq<char>,
    u: (Seq<char>, Seq<char>, Option<Seq<char>>),
    host: Seq<char>,
    i: int,
)
    requires
        url::url_parse(addr) == Ok::<(Seq<char>, Seq<char>, Option<Seq<char>>), Seq<char>>(u),
        u.1 == "http"@ || u.1 == "https"@,
        u.2 == Some(host),
        0 <= i < host.len(),
        !('0' <= host[i] <= '9') && host[i] != '.',
    ensures
        refusal(addr) is None,
{
    if internal_host(host) {
        let (a, b, c, d) = choose|a: u8, b: u8, c: u8, d: u8|
            host == #[trigger] dotted(a, b, c, d) && internal(a, b, c, d);
        lemma_dotted_signs(a, b, c, d, i);
    }
}

proof fn lemma_dotted_signs(a: u8, b: u8, c: u8, d: u8, i: int)
    requires
        0 <= i < dotted(a, b, c, d).len(),
    ensures
        '0' <= dotted(a, b, c, d)[i] <= '9' || dotted(a, b, c, d)[i] == '.',
{
    text::lemma_decimal_digits(a as nat);
    text::lemma_decimal_digits(b as nat);
    text::lemma_decimal_digits(c as nat);
    text::lemma_decimal_digits(d as nat);
    let x = text::decimal(a as nat);
    let y = text::decimal(b as nat);
    let z = text::decimal(c as nat);
    let w = text::decimal(d as nat);
    let s = dotted(a, b, c, d);
    if i < x.len() {
        assert(s[i] == x[i]);
    } else if i == x.len() {
        assert(s[i] == '.');
    } else {
        let j = i - x.len() - 1;
        if j < y.len() {
            assert(s[i] == y[j]);
        } else if j == y.len() {
            assert(s[i] == '.');
        } else {
            let k = j - y.len() - 1;
            if k < z.len() {
                assert(s[i] == z[k]);
            } else if k == z.len() {
                assert(s[i] == '.');
            } else {
                assert(s[i] == w[k - z.len() - 1]);
            }
        }
    }
}

/// What is no URL is refused with what the parser says, and what is not of the web with its
/// scheme.
pub proof fn other_addresses_are_refused(addr: Seq<char>)
    ensures
        url::url_parse(addr) matches Err(m) ==> refusal(addr) == Some(UrlErrorView::Invalid(m)),
        url::url_parse(addr) matches Ok(u) ==> (u.1 != "http"@ && u.1 != "https"@ ==> refusal(addr)
            == Some(UrlErrorView::Scheme(u.1))),
        (url::url_parse(addr) matches Ok(u) && (u.1 == "http"@ || u.1 == "https"@) && u.2 is None)
            ==> refusal(addr) is None,
{
}

/// The normal form of an address is the address without its fragment and without the slash at its
/// end, so that addresses which differ in nothing else are the same page. What is no URL is its own
/// normal form.
pub proof fn pages_are_told_apart_without_fragment_and_slash(
    addr: Seq<char>,
    stem: Seq<char>,
    other: Seq<char>,
)
    requires
        encode_utf8(stem).len() >= 8,
        stem.last() != '/',
        url::url_without_fragment(addr) == Some(stem) || url::url_without_fragment(addr) == Some(
            stem.push('/'),
        ),
    ensures
        normal(addr) == stem,
        url::url_without_fragment(other) == url::url_without_fragment(addr) ==> normal(other)
            == normal(addr),
        url::url_without_fragment(other) is None ==> normal(other) == other,
{
    let s = stem.push('/');
    assert(s.drop_last() =~= stem);
    assert(stem + seq!['/'] =~= s);
    text::lemma_encode_concat(stem, seq!['/']);
    text::lemma_ascii_byte('/');
}

} // verus!
