use scour::bindings::html::Element;
use scour::encoding::{urlencoding, urlencoding_decode};
use scour::search::{
    bing_hit, bing_hits, ddg_hit, ddg_hits, ddg_link, filter_hits, is_of_any, is_of_site,
    merge_hits, points, rank_hits, read_payload, read_redirect, search_addresses, search_hits,
    split_site, write_question, SearchHit, SearchResult,
};

fn hit(title: &str, url: &str) -> SearchHit {
    SearchHit { title: title.to_string(), url: url.to_string(), snippet: String::new() }
}

fn element(href: &str, text: &str) -> Element {
    Element { attr: Some(href.to_string()), text: vec![text.to_string()] }
}

#[test]
fn texts_are_percent_encoded() {
    assert_eq!(urlencoding("a b+c&d=é~-_."), "a+b%2Bc%26d%3D%C3%A9~-_.");
    assert_eq!(urlencoding_decode("a+b%2Bc%26d%3d~"), "a b+c&d=~");
    assert_eq!(urlencoding_decode("%C3%A9é+%zé"), "éé %zé");
    // What is no UTF-8 is replaced.
    assert_eq!(urlencoding_decode("a%C3b"), "a\u{fffd}b");
    assert_eq!(urlencoding_decode("%zz%4"), "%zz@");
    assert_eq!(urlencoding_decode("%+5%"), "\u{5}\0");
    assert_eq!(urlencoding_decode("%++"), "%++");
    let all: String = (0u32..0x3000).chain([0xd7ff, 0xe000, 0xffff, 0x1f600, 0x10ffff]).filter_map(char::from_u32).collect();
    assert_eq!(urlencoding_decode(&urlencoding(&all)), all);
}

#[test]
fn questions_carry_operators() {
    assert_eq!(
        write_question(
            "q",
            Some(" a.org "),
            &["b.org".to_string(), " ".to_string(), "c.org".to_string()],
            Some("week"),
        ),
        "q site:a.org -site:b.org -site:c.org when:week"
    );
    assert_eq!(write_question("q", Some(" "), &[], Some("decade")), "q");
    let (ddg, bing) = search_addresses("a b", None, &[], Some(" DAY "));
    assert_eq!(ddg, "https://html.duckduckgo.com/html/?q=a+b+when%3Aday");
    assert_eq!(bing, "https://www.bing.com/search?q=a+b+when%3Aday");
}

const DDG: &str = r#"<div class="result"><h2 class="result__title"><a href="//duckduckgo.com/l/?uddg=https%3A%2F%2Fa.org%2Fx%3Fy%3D1&amp;rut=9"> First
 <b>hit</b> </a></h2><a class="result__snippet">Some <b>words</b></a></div>
<div class="result"><p>no heading</p></div>
<div class="result"><h2 class="result__title"><a href="https://b.org/">Second</a></h2></div>
<div class="result"><h2 class="result__title"><a href="/local">Third</a></h2></div>"#;

#[test]
fn results_of_duckduckgo_are_read() {
    let hits = ddg_hits(DDG);
    assert_eq!(hits.len(), 2);
    assert_eq!(hits[0].url, "https://a.org/x?y=1");
    assert!(hits[0].title.starts_with("First") && hits[0].title.ends_with("hit"));
    assert_eq!(hits[0].snippet, "Some  words");
    assert_eq!((hits[1].title.as_str(), hits[1].url.as_str(), hits[1].snippet.as_str()), ("Second", "https://b.org/", ""));
}

#[test]
fn links_stand_in_for_missing_results() {
    let page = r#"<a href="//duckduckgo.com/l/?uddg=https%3A%2F%2Fa.org%2F">A long enough title</a>
<a href="https://duckduckgo.com/about">About this search engine</a>
<a href="https://b.org/">short</a><a href=" https://c.org/ ">Another long title</a>"#;
    let hits = ddg_hits(page);
    let urls: Vec<&str> = hits.iter().map(|h| h.url.as_str()).collect();
    assert_eq!(urls, vec!["https://a.org/", "https://c.org/"]);
    assert!(ddg_link(&element("https://a.org/", "exactly 10")).is_some());
    assert!(ddg_link(&element("https://a.org/", "only nine")).is_none());
    assert!(ddg_link(&element("https://a.org/", &"t".repeat(201))).is_none());
    assert!(ddg_link(&element("/relative", "A long enough title")).is_none());
}

#[test]
fn redirects_are_resolved() {
    assert_eq!(
        read_redirect("//x/?uddg=https%3A%2F%2Fa.org&rut=1").as_deref(),
        Some("https://a.org")
    );
    assert_eq!(read_redirect("https://a.org"), None);
    let e = element("/l?uddg=%zz", "T");
    assert!(ddg_hit(&e, None, None).is_none());
    let h = ddg_hit(&e, Some(&element("", "s")), Some("http://a/".to_string())).unwrap();
    assert_eq!((h.url.as_str(), h.snippet.as_str()), ("http://a/", "s"));
    assert!(ddg_hit(&element("http://a/", " "), None, None).is_none());
}

#[test]
fn results_of_bing_are_read() {
    // "https://a.org/" in base64, without its padding.
    let page = r#"<li class="b_algo"><h2><a href="https://www.bing.com/ck/a?!&amp;&amp;p=1&amp;u=a1aHR0cHM6Ly9hLm9yZy8&amp;ntb=1">One</a></h2></li>
<li class="b_algo"><h2><a href="https://b.org/">Two</a></h2></li>
<li class="b_algo"><h2><a href="https://c.org/"></a></h2></li>"#;
    let hits = bing_hits(page);
    let urls: Vec<&str> = hits.iter().map(|h| h.url.as_str()).collect();
    assert_eq!(urls, vec!["https://a.org/", "https://b.org/"]);

    let page = r#"<h2><a href="https://www.bing.com/x">A page of the engine itself</a></h2>
<h2><a href="https://b.org/">short</a></h2><h2><a href="https://c.org/">Long enough title</a></h2>"#;
    let hits = bing_hits(page);
    assert_eq!(hits.len(), 1);
    assert_eq!(hits[0].url, "https://c.org/");
}

#[test]
fn payloads_are_padded() {
    assert_eq!(read_payload("https://www.bing.com/ck/a?u=a1YWJj&x").as_deref(), Some("YWJj"));
    assert_eq!(read_payload("https://www.bing.com/ck/a?u=YWI").as_deref(), Some("YWI="));
    assert_eq!(read_payload("https://www.bing.com/ck/a?u=a1YQ").as_deref(), Some("YQ=="));
    assert_eq!(read_payload("https://www.bing.com/ck/a?v=1"), None);
    assert_eq!(read_payload("https://other.org/?u=a1YQ"), None);
    // What does not decode leaves the link as it is.
    let page = r#"<li class="b_algo"><h2><a href="https://www.bing.com/ck/a?u=a1*">T</a></h2></li>"#;
    assert_eq!(bing_hits(page)[0].url, "https://www.bing.com/ck/a?u=a1*");
    let e = element("http://x/", "T");
    assert_eq!(bing_hit(&e, Some("http://y/".to_string()), false).unwrap().url, "http://y/");
    assert!(bing_hit(&e, None, true).is_none());
}

#[test]
fn pages_are_merged_once() {
    let ddg = vec![hit("1", "https://a.org/x"), hit("2", "https://a.org/x#p")];
    let bing = vec![hit("3", "https://a.org/x/"), hit("4", "https://b.org/")];
    let all = merge_hits(&ddg, &bing);
    let titles: Vec<(&str, bool)> = all.iter().map(|t| (t.hit.title.as_str(), t.from_ddg)).collect();
    assert_eq!(titles, vec![("1", true), ("4", false)]);
}

#[test]
fn sites_are_filtered() {
    let all = merge_hits(
        &[
            hit("1", "https://Docs.A.org/"),
            hit("2", "https://b.org/a.org"),
            hit("3", "https://a.org/x"),
            hit("4", "https://nota.org/"),
            hit("5", "https://a.org.evil.net/"),
        ],
        &[],
    );
    let titles = |site: &str, excluded: &[String]| -> Vec<String> {
        filter_hits(&all, site, excluded).iter().map(|t| t.hit.title.clone()).collect()
    };
    assert_eq!(titles("a.org", &[]), vec!["1", "3"]);
    assert_eq!(titles("", &["a.org".to_string()]), vec!["2", "4", "5"]);
    assert_eq!(titles("a.org", &["docs.a.org".to_string()]), vec!["3"]);
    assert_eq!(titles("", &[]).len(), 5);
    let place = |h: &str, p: &str| Some((h.to_string(), p.to_string()));
    assert!(is_of_site(&place("a.org", "/"), "a.org"));
    assert!(is_of_site(&place("x.y.a.org", "/"), "a.org"));
    assert!(!is_of_site(&place("xa.org", "/"), "a.org") && !is_of_site(&None, "a.org"));
    let two = ["a.org".to_string(), "b.org/x".to_string()];
    assert!(is_of_any(&place("b.org", "/x/y"), &two) && !is_of_any(&place("b.org", "/y"), &two));
    assert!(!is_of_any(&place("b.org", "/"), &[]) && !is_of_any(&None, &two));
}

#[test]
fn sites_may_name_a_scheme_and_a_path() {
    let parts = |s: &str| split_site(s);
    assert_eq!(parts("a.org"), ("a.org".to_string(), String::new()));
    assert_eq!(parts("https://a.org/"), ("a.org".to_string(), "/".to_string()));
    assert_eq!(parts("github.com/rust-lang"), ("github.com".to_string(), "/rust-lang".to_string()));
    let all = merge_hits(
        &[
            hit("1", "https://github.com/rust-lang/rust"),
            hit("2", "https://github.com/Rust-Lang"),
            hit("3", "https://github.com/other/rust-lang"),
            hit("4", "https://example.com/rust-lang"),
        ],
        &[],
    );
    let titles = |site: &str, excluded: &[String]| -> Vec<String> {
        filter_hits(&all, site, excluded).iter().map(|t| t.hit.title.clone()).collect()
    };
    assert_eq!(titles("github.com/rust-lang", &[]), vec!["1", "2"]);
    assert_eq!(titles("https://github.com", &[]), vec!["1", "2", "3"]);
    assert_eq!(titles("https://github.com/", &[]), vec!["1", "2", "3"]);
    assert_eq!(titles("", &["github.com/rust-lang".to_string()]), vec!["3", "4"]);
    assert_eq!(titles("", &["http://example.com/".to_string()]), vec!["1", "2", "3"]);
}

#[test]
fn hits_are_ranked() {
    let terms = vec!["rust".to_string()];
    assert_eq!(points("rust", "rust", "rust", &terms, true), 9);
    assert_eq!(points("x", "rust", "x", &terms, false), 2);
    let all = merge_hits(
        &[hit("none", "https://1.org/"), hit("Rust", "https://2.org/")],
        &[hit("none", "https://3.org/rust"), hit("RUST", "https://4.org/")],
    );
    let urls = |terms: &[String], max: usize| -> Vec<String> {
        rank_hits(&all, terms, max).iter().map(|h| h.url.clone()).collect()
    };
    assert_eq!(
        urls(&terms, 20),
        vec!["https://2.org/", "https://4.org/", "https://3.org/rust", "https://1.org/"]
    );
    assert_eq!(urls(&terms, 1), vec!["https://2.org/"]);
    assert_eq!(urls(&[], 2), vec!["https://1.org/", "https://2.org/"]);
}

#[test]
fn searches_are_answered() {
    let bing = r#"<li class="b_algo"><h2><a href="https://b.org/#again">Second again</a></h2></li>
<li class="b_algo"><h2><a href="https://d.org/first">Fourth</a></h2></li>"#;
    let hits = search_hits(Some(DDG), Some(bing), "first second", 10, None, &[]);
    let urls: Vec<&str> = hits.iter().map(|h| h.url.as_str()).collect();
    assert_eq!(urls, vec!["https://a.org/x?y=1", "https://b.org/", "https://d.org/first"]);
    assert_eq!(search_hits(Some(DDG), Some(bing), "first", 0, None, &[]).len(), 1);
    let only = search_hits(Some(DDG), Some(bing), "first", 10, Some(" D.org "), &[]);
    assert_eq!(only.len(), 1);
    let without = search_hits(Some(DDG), Some(bing), "first", 10, None, &[" A.ORG ".to_string()]);
    assert!(without.iter().all(|h| !h.url.contains("a.org")));
    assert!(search_hits(None, None, "first", 10, None, &[]).is_empty());
    let r = SearchResult::of("q".to_string(), hits);
    assert_eq!(r.total, 3);
}
