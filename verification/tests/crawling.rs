use scour::answer::{LinkOut, ScrapeResult};
use scour::batch::failed;
use scour::crawl::{closeness, is_on_site, plan, site_of, Crawl, Plan};
use scour::order::{comes_before, rank_positions, sorted_set};
use scour::request::Limits;
use scour::sitemap::{parse_locs, sitemap_addresses, sitemap_urls};

fn limits(max_pages: usize, max_depth: usize) -> Limits {
    Limits { max_pages, max_depth, max_chars: 8000, max_total_chars: None }
}

fn page(url: &str, links: &[(&str, &str)]) -> ScrapeResult {
    let mut p = failed(url, "");
    p.markdown = "0123456789".to_string();
    for (href, text) in links {
        p.links.push(LinkOut { href: href.to_string(), text: text.to_string() });
    }
    p
}

fn go(p: Plan) -> Crawl {
    match p {
        Plan::Go(c) => c,
        Plan::Finished(_) => panic!("finished"),
    }
}

fn start(limits: Limits, focus: Option<&str>) -> Crawl {
    go(plan("https://a.org/", "a.org".to_string(), limits, focus, false, &[]))
}

#[test]
fn a_crawl_follows_links_breadth_first() {
    let mut c = start(limits(5, 2), None);
    assert_eq!(c.next(), Some(("https://a.org/".to_string(), 0)));
    c.take(0, page("https://a.org/", &[
        ("https://a.org/1", "x"),
        ("https://b.org/", "elsewhere"),
        ("https://a.org/1#part", "part"),
        ("https://a.org/x.pdf", "pdf"),
        ("https://a.org/1/", "same as the first"),
        ("https://a.org/2", "x"),
        ("https://a.org/", "home"),
    ]));
    assert_eq!(c.next(), Some(("https://a.org/1".to_string(), 1)));
    c.take(1, page("https://a.org/1", &[("https://a.org/3", "x"), ("https://a.org/2", "x")]));
    assert_eq!(c.next(), Some(("https://a.org/2".to_string(), 1)));
    // A page that could not be fetched changes nothing.
    assert_eq!(c.next(), Some(("https://a.org/3".to_string(), 2)));
    c.take(2, page("https://a.org/3", &[("https://a.org/4", "too deep")]));
    assert_eq!(c.next(), None);
    assert_eq!(c.read_so_far(), 30);
    let r = c.into_result("https://a.org/");
    assert_eq!(r.pages.len(), 3);
    assert_eq!(r.total_chars, 30);
    assert_eq!(
        r.visited,
        vec![
            "https://a.org".to_string(),
            "https://a.org/1".to_string(),
            "https://a.org/2".to_string(),
            "https://a.org/3".to_string(),
        ]
    );
}

#[test]
fn a_crawl_prefers_links_about_its_focus() {
    let links: Vec<(String, String)> = (0..15u32)
        .map(|i| {
            let text = if i == 12 { "Rust Verifier".to_string() } else if i > 12 { "rust".to_string() } else { "x".to_string() };
            (format!("https://a.org/{i}"), text)
        })
        .collect();
    let refs: Vec<(&str, &str)> = links.iter().map(|(h, t)| (h.as_str(), t.as_str())).collect();
    let mut c = start(limits(20, 2), Some("rust VERIFIER"));
    c.next();
    c.take(0, page("https://a.org/", &refs));
    let mut order: Vec<String> = Vec::new();
    while let Some((url, _)) = c.next() {
        order.push(url);
    }
    let expected: Vec<String> = [12u32, 13, 14, 0, 1, 2, 3, 4, 5, 6]
        .iter()
        .map(|i| format!("https://a.org/{i}"))
        .collect();
    assert_eq!(order, expected, "the ten closest, closest first");
    assert_eq!(closeness("about rust", &["rust".to_string(), "x".to_string()]), 1);
}

#[test]
fn a_crawl_stops_at_its_limits() {
    let mut c = start(limits(1, 2), None);
    c.next();
    c.take(0, page("https://a.org/", &[("https://a.org/1", "x")]));
    assert_eq!(c.next(), None);

    let mut l = limits(5, 2);
    l.max_total_chars = Some(10);
    let mut c = start(l, None);
    c.next();
    c.take(0, page("https://a.org/", &[("https://a.org/1", "x"), ("https://a.org/2", "x")]));
    assert_eq!(c.next(), Some(("https://a.org/1".to_string(), 1)), "the limit is not passed");
    c.take(1, page("https://a.org/1", &[("https://a.org/3", "x")]));
    assert_eq!(c.next(), None, "it is now");
    let r = c.into_result("https://a.org/");
    assert_eq!((r.pages.len(), r.total_chars), (2, 20), "only the last page passes the limit");

    l.max_total_chars = Some(9);
    let mut c = start(l, None);
    c.next();
    c.take(0, page("https://a.org/", &[("https://a.org/1", "x")]));
    let r = c.into_result("https://a.org/");
    assert_eq!((r.pages.len(), r.visited.len()), (1, 1), "no link is followed any more");
}

#[test]
fn crawls_count_characters() {
    let mut c = start(limits(5, 2), None);
    c.next();
    let mut p = page("https://a.org/", &[]);
    p.markdown = "日本".to_string();
    c.take(0, p);
    assert_eq!(c.read_so_far(), 2);
    assert_eq!(c.into_result("https://a.org/").total_chars, 2);
}

#[test]
fn discovery_fetches_nothing() {
    match plan("https://a.org/", "a.org".to_string(), limits(3, 2), None, true, &[]) {
        Plan::Finished(r) => {
            assert!(r.pages.is_empty());
            assert_eq!(r.total_chars, 0);
            assert_eq!(r.start_url, "https://a.org/");
            assert_eq!(r.visited, vec!["https://a.org".to_string()]);
        }
        Plan::Go(_) => panic!("nothing is to be fetched"),
    }
}

#[test]
fn listed_pages_are_gone_through() {
    let listed: Vec<String> = ["https://a.org/1", "https://a.org/1#x", "https://a.org/2", "https://a.org/3"]
        .iter()
        .map(|s| s.to_string())
        .collect();
    let mut c = go(plan("https://a.org/", "a.org".to_string(), limits(3, 2), None, false, &listed));
    assert_eq!(c.next(), Some(("https://a.org/1".to_string(), 0)));
    c.take(0, page("https://a.org/1", &[("https://a.org/9", "x")]));
    assert_eq!(c.next(), Some(("https://a.org/2".to_string(), 0)));
    c.take(0, page("https://a.org/2", &[]));
    assert_eq!(c.next(), None);
    assert_eq!(c.into_result("https://a.org/").pages.len(), 2);

    match plan("https://a.org/", "a.org".to_string(), limits(3, 2), None, true, &listed) {
        Plan::Finished(r) => assert_eq!(r.visited, listed[..3].to_vec()),
        Plan::Go(_) => panic!("nothing is to be fetched"),
    }
}

#[test]
fn sites_are_told_apart() {
    assert_eq!(site_of("https://A.org:81/x").unwrap(), "a.org");
    assert!(site_of("http://10.0.0.1/").is_err());
    assert!(is_on_site("http://a.org/x", "a.org"));
    for href in ["ftp://a.org/x", "https://b.a.org/", "https://a.org/x.jpg", "https://a.org/x.png", "x", "https://a.org/#"] {
        assert!(!is_on_site(href, "a.org"), "{href}");
    }
}

#[test]
fn site_maps_are_read() {
    assert_eq!(
        sitemap_addresses("a.org"),
        vec!["https://a.org/sitemap.xml".to_string(), "https://a.org/sitemap_index.xml".to_string()]
    );
    assert_eq!(
        parse_locs("<loc> a </loc>x<loc>b</loc><loc>open"),
        vec!["a".to_string(), "b".to_string()]
    );
    assert!(parse_locs("").is_empty() && parse_locs("</loc><loc>").is_empty());
    let first = "<loc>https://a.org/z</loc><loc>https://b.org/</loc><loc>no url</loc>".to_string();
    let second = "<loc>https://a.org/b</loc><loc>\n https://a.org/z</loc><loc>https://a.org/ä</loc>".to_string();
    assert_eq!(
        sitemap_urls(&[first, second], "a.org"),
        vec!["https://a.org/b".to_string(), "https://a.org/z".to_string(), "https://a.org/ä".to_string()]
    );
}

#[test]
fn orders() {
    assert_eq!(rank_positions(&[1, 3, 2, 3, 1]), vec![1, 3, 2, 0, 4]);
    assert!(rank_positions(&[]).is_empty());
    let mut words: Vec<String> = ["b", "a", "", "ab", "é", "z", "a"].iter().map(|s| s.to_string()).collect();
    let set = sorted_set(&words);
    words.sort();
    words.dedup();
    assert_eq!(set, words);
    assert!(comes_before("a", "ab") && !comes_before("ab", "a") && !comes_before("a", "a"));
}
