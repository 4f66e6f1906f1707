//! Site maps: where they are found, and which pages of the site they list.

use crate::bindings::url;
use crate::order;
use crate::text;
use vstd::prelude::*;

verus! {

/// Where the site maps of a domain are found.
pub fn sitemap_addresses(domain: &str) -> (r: Vec<String>)
    ensures
        text::views(r@) == seq![
            "https://"@ + domain@ + "/sitemap.xml"@,
            "https://"@ + domain@ + "/sitemap_index.xml"@,
        ],
{
    let mut a = "https://".to_owned();
    a.append(domain);
    a.append("/sitemap.xml");
    let mut b = "https://".to_owned();
    b.append(domain);
    b.append("/sitemap_index.xml");
    let mut r: Vec<String> = Vec::new();
    r.push(a);
    r.push(b);
    assert(text::views(r@) =~= seq![a@, b@]);
    r
}

/// What stands between `<loc>` and `</loc>` from position `i` on, trimmed, in order.
pub open spec fn locs_from(s: Seq<char>, i: int) -> Seq<Seq<char>>
    decreases s.len() - i,
{
    let open = text::first_at(s, "<loc>"@, i);
    let close = text::first_at(s, "</loc>"@, open + 5);
    if 0 <= i <= open && open + 5 <= close && close + 6 <= s.len() {
        seq![text::trimmed(s.subrange(open + 5, close))] + locs_from(s, close + 6)
    } else {
        seq![]
    }
}

/// What stands between `<loc>` and `</loc>`, trimmed, in order.
pub open spec fn locs_in(s: Seq<char>) -> Seq<Seq<char>> {
    locs_from(s, 0)
}

/// The addresses that a site map lists.
pub fn parse_locs(xml: &str) -> (r: Vec<String>)
    ensures
        text::views(r@) == locs_in(xml@),
{
    proof {
        reveal_strlit("<loc>");
        reveal_strlit("</loc>");
    }
    let s = text::to_chars(xml);
    let open_tag = text::to_chars("<loc>");
    let close_tag = text::to_chars("</loc>");
    let mut r: Vec<String> = Vec::new();
    let mut i: usize = 0;
    assert(text::views(r@) + locs_from(s@, 0) == locs_from(s@, 0));
    loop
        invariant
            i <= s@.len(),
            s@ == xml@,
            open_tag@ == "<loc>"@,
            close_tag@ == "</loc>"@,
            open_tag@.len() == 5,
            close_tag@.len() == 6,
            locs_in(s@) == text::views(r@) + locs_from(s@, i as int),
        ensures
            locs_in(s@) == text::views(r@),
        decreases s@.len() - i,
    {
        let open = text::find_from(&s, &open_tag, i);
        if open >= s.len() {
            assert(locs_from(s@, i as int) == Seq::<Seq<char>>::empty());
            assert(text::views(r@) + Seq::<Seq<char>>::empty() == text::views(r@));
            break;
        }
        let start: usize = open + 5;
        let close = text::find_from(&s, &close_tag, start);
        if close >= s.len() {
            assert(locs_from(s@, i as int) == Seq::<Seq<char>>::empty());
            assert(text::views(r@) + Seq::<Seq<char>>::empty() == text::views(r@));
            break;
        }
        let ghost before = text::views(r@);
        let loc = text::trim(text::from_chars(&s, start, close).as_str());
        r.push(loc);
        assert(text::views(r@) == before.push(loc@));
        i = close + 6;
        assert(before + (seq![loc@] + locs_from(s@, i as int)) == text::views(r@) + locs_from(
            s@,
            i as int,
        ));
    }
    r
}

/// The host is the domain.
pub open spec fn of_domain(
    u: (Seq<char>, Seq<char>, Option<Seq<char>>),
    domain: Seq<char>,
) -> bool {
    u.2 == Some(domain)
}

/// Whether the host of a parsed URL is the domain.
pub fn is_of_domain(u: &url::UrlParts, domain: &str) -> (r: bool)
    ensures
        r == of_domain(u@, domain@),
{
    match &u.host {
        Some(h) => text::same(h.as_str(), domain),
        None => false,
    }
}

/// The text is a URL whose host is the domain.
pub open spec fn listed_page(loc: Seq<char>, domain: Seq<char>) -> bool {
    match url::url_parse(loc) {
        Ok(u) => of_domain(u, domain),
        Err(_) => false,
    }
}

/// One of the site maps lists the page, which is one of the domain.
pub open spec fn mapped(xmls: Seq<Seq<char>>, domain: Seq<char>, loc: Seq<char>) -> bool {
    listed_page(loc, domain) && exists|i: int|
        0 <= i < xmls.len() && (#[trigger] locs_in(xmls[i])).contains(loc)
}

/// The pages of a domain that its site maps list, in dictionary order, none of them twice.
pub fn sitemap_urls(xmls: &[String], domain: &str) -> (r: Vec<String>)
    ensures
        order::increasing(text::views(r@)),
        forall|loc: Seq<char>|
            #[trigger] text::views(r@).contains(loc) <==> mapped(
                text::views(xmls@),
                domain@,
                loc,
            ),
{
    let ghost x = text::views(xmls@);
    let mut found: Vec<String> = Vec::new();
    let mut i: usize = 0;
    while i < xmls.len()
        invariant
            i <= xmls@.len(),
            x == text::views(xmls@),
            forall|loc: Seq<char>|
                #[trigger] text::views(found@).contains(loc) <==> mapped(
                    x.take(i as int),
                    domain@,
                    loc,
                ),
        decreases xmls@.len() - i,
    {
        let locs = parse_locs(xmls[i].as_str());
        let ghost l = text::views(locs@);
        assert(x[i as int] == xmls@[i as int]@);
        assert(x.take(i + 1).take(i as int) == x.take(i as int));
        let ghost start = text::views(found@);
        let mut k: usize = 0;
        while k < locs.len()
            invariant
                k <= locs@.len(),
                l == text::views(locs@),
                forall|loc: Seq<char>|
                    #[trigger] text::views(found@).contains(loc) <==> (start.contains(loc) || (
                    listed_page(loc, domain@) && l.take(k as int).contains(loc))),
            decreases locs@.len() - k,
        {
            let ghost before = text::views(found@);
            let ghost loc = l[k as int];
            assert(loc == locs@[k as int]@);
            proof {
                lemma_contains_push(l.take(k as int), loc);
            }
            assert(l.take(k + 1) == l.take(k as int).push(loc));
            let wanted = match url::parse(locs[k].as_str()) {
                Ok(u) => is_of_domain(&u, domain),
                Err(_) => false,
            };
            assert(wanted == listed_page(loc, domain@));
            if wanted {
                found.push(locs[k].clone());
                assert(text::views(found@) == before.push(loc));
                proof {
                    lemma_contains_push(before, loc);
                }
            }
            k += 1;
        }
        assert(l.take(k as int) == l);
        proof {
            assert forall|loc: Seq<char>| #[trigger] text::views(found@).contains(loc) <==> mapped(
                x.take(i + 1),
                domain@,
                loc,
            ) by {
                lemma_mapped_step(x, domain@, loc, i as int);
            }
        }
        i += 1;
    }
    assert(x.take(i as int) == x);
    order::sorted_set(&found)
}

proof fn lemma_contains_push(s: Seq<Seq<char>>, x: Seq<char>)
    ensures
        forall|t: Seq<char>| #[trigger] s.push(x).contains(t) <==> s.contains(t) || t == x,
{
    assert forall|t: Seq<char>| #[trigger] s.push(x).contains(t) <==> s.contains(t) || t == x by {
        if s.contains(t) {
            assert(s.push(x)[s.index_of(t)] == t);
        }
        assert(s.push(x)[s.len() as int] == x);
        if s.push(x).contains(t) {
            let k = s.push(x).index_of(t);
            if k < s.len() {
                assert(s[k] == t);
            }
        }
    }
}

proof fn lemma_mapped_step(x: Seq<Seq<char>>, domain: Seq<char>, loc: Seq<char>, i: int)
    requires
        0 <= i < x.len(),
    ensures
        mapped(x.take(i + 1), domain, loc) <==> (mapped(x.take(i), domain, loc) || (listed_page(
            loc,
            domain,
        ) && locs_in(x[i]).contains(loc))),
{
    let a = x.take(i + 1);
    let b = x.take(i);
    if mapped(a, domain, loc) {
        let k = choose|k: int| 0 <= k < a.len() && (#[trigger] locs_in(a[k])).contains(loc);
        if k < i {
            assert(b[k] == a[k]);
        }
    }
    if mapped(b, domain, loc) {
        let k = choose|k: int| 0 <= k < b.len() && (#[trigger] locs_in(b[k])).contains(loc);
        assert(a[k] == b[k]);
    }
    assert(a[i] == x[i]);
}

// ── What a site map must give ───────────────────────────────────────────────

proof fn lemma_locs_behind(a: Seq<char>, b: Seq<char>, i: int)
    requires
        0 <= i <= b.len(),
    ensures
        locs_from(a + b, a.len() + i) == locs_from(b, i),
    decreases b.len() - i,
{
    let s = a + b;
    let n = a.len() as int;
    text::lemma_first_behind(a, b, "<loc>"@, i);
    let open = text::first_at(b, "<loc>"@, i);
    text::lemma_first_at(b, "<loc>"@, i);
    if open + 5 <= b.len() {
        text::lemma_first_behind(a, b, "</loc>"@, open + 5);
        let close = text::first_at(b, "</loc>"@, open + 5);
        text::lemma_first_at(b, "</loc>"@, open + 5);
        if close + 6 <= b.len() {
            assert(s.subrange(n + open + 5, n + close) =~= b.subrange(open + 5, close));
            lemma_locs_behind(a, b, close + 6);
        }
    }
}

/// A site map lists every address that it holds between its tags, without the white space around
/// it, in their order, whatever else stands between them.
pub proof fn site_maps_list_what_they_hold(a: Seq<char>, loc: Seq<char>, rest: Seq<char>)
    requires
        !a.contains('<') && !loc.contains('<'),
    ensures
        locs_in(a + "<loc>"@ + loc + "</loc>"@ + rest) == seq![text::trimmed(loc)] + locs_in(rest),
        locs_in(a).len() == 0,
{
    let open = "<loc>"@;
    let close = "</loc>"@;
    let s = a + open + loc + close + rest;
    reveal_strlit("<loc>");
    reveal_strlit("</loc>");
    let n = a.len() as int;
    let m = n + 5 + loc.len();
    assert(s.subrange(n, n + 5) =~= open);
    assert(text::occurs_at(s, open, n));
    assert forall|j: int| 0 <= j < n implies !text::occurs_at(s, open, j) by {
        if text::occurs_at(s, open, j) {
            assert(s.subrange(j, j + 5)[0] == s[j]);
            assert(a[j] == '<');
        }
    }
    text::lemma_first_at_found(s, open, 0);
    text::lemma_first_at(s, open, 0);
    assert(text::first_at(s, open, 0) == n) by {
        let g = text::first_at(s, open, 0);
        if g < n {
            assert(text::occurs_at(s, open, g));
        } else if g > n {
            assert(!text::occurs_at(s, open, n));
        }
    }
    assert(s.subrange(m, m + 6) =~= close);
    assert(text::occurs_at(s, close, m));
    assert forall|j: int| n + 5 <= j < m implies !text::occurs_at(s, close, j) by {
        if text::occurs_at(s, close, j) {
            assert(s.subrange(j, j + 6)[0] == s[j]);
            assert(loc[j - n - 5] == '<');
        }
    }
    text::lemma_first_at_found(s, close, n + 5);
    text::lemma_first_at(s, close, n + 5);
    assert(text::first_at(s, close, n + 5) == m) by {
        let g = text::first_at(s, close, n + 5);
        if g < m {
            assert(text::occurs_at(s, close, g));
        } else if g > m {
            assert(!text::occurs_at(s, close, m));
        }
    }
    assert(s.subrange(n + 5, m) =~= loc);
    let front = a + open + loc + close;
    assert(s =~= front + rest);
    lemma_locs_behind(front, rest, 0);
    assert forall|j: int| !text::occurs_at(a, open, j) by {
        if text::occurs_at(a, open, j) {
            assert(a.subrange(j, j + 5)[0] == a[j]);
        }
    }
    text::lemma_first_at_found(a, open, 0);
    text::lemma_first_at(a, open, 0);
}

/// A page is one of the domain if its address is a URL with that host, and only then; and one that
/// a site map lists counts, whichever of the site maps it is.
pub proof fn pages_of_the_domain_are_listed(
    xmls: Seq<Seq<char>>,
    domain: Seq<char>,
    loc: Seq<char>,
    i: int,
)
    requires
        0 <= i < xmls.len(),
    ensures
        listed_page(loc, domain) <==> (url::url_parse(loc) matches Ok(u) && u.2 == Some(domain)),
        locs_in(xmls[i]).contains(loc) && listed_page(loc, domain) ==> mapped(xmls, domain, loc),
{
}

/// Nothing else is listed: what counts stands in one of the site maps and is a page of the domain.
pub proof fn only_what_site_maps_hold_is_listed(
    xmls: Seq<Seq<char>>,
    domain: Seq<char>,
    loc: Seq<char>,
) -> (i: int)
    requires
        mapped(xmls, domain, loc),
    ensures
        0 <= i < xmls.len(),
        locs_in(xmls[i]).contains(loc),
        url::url_parse(loc) matches Ok(u) && u.2 == Some(domain),
{
    choose|i: int| 0 <= i < xmls.len() && (#[trigger] locs_in(xmls[i])).contains(loc)
}

} // verus!
