use scour::batch::{admissible, failed, gather, Outcome};
use scour::browser::{browser_steps, screenshot_text, shorten, Step};
use scour::pdf::{is_pdf_path, present, preview, url_is_pdf, worth_asking, write_note, Evidence};
use scour::request::{
    Action, CrawlRequest, ScrapeBatchRequest, ScrapeOptions, ScrapeRequest, SearchRequest,
};
use scour::scrape::{begin, keys_of, plain_settings};

fn request() -> ScrapeRequest {
    ScrapeRequest {
        url: "https://example.com".to_string(),
        focus: None,
        max_chars: None,
        include_links: None,
        offset: None,
        include_media: None,
        actions: None,
        pages: None,
        options: None,
    }
}

#[test]
fn defaults_are_filled_in() {
    let s = request().settings();
    assert_eq!(s.extent.max_chars, 40_000);
    assert!(s.extent.include_links && !s.extent.include_media);
    assert!(s.extent.offset.is_none() && s.pages.is_none() && s.actions.is_none());
    assert_eq!(s.actions_len(), 0);
}

#[test]
fn options_go_before() {
    let mut r = request();
    r.include_media = Some(true);
    r.pages = Some("1".to_string());
    r.actions = Some(vec![Action::Wait(1)]);
    r.offset = Some(9);
    let s = r.settings();
    assert!(s.extent.include_media);
    assert_eq!(s.pages.as_deref(), Some("1"));
    assert_eq!(s.actions_len(), 1);
    r.options = Some(ScrapeOptions {
        include_media: Some(false),
        actions: Some(Vec::new()),
        pages: Some("2-3".to_string()),
    });
    let s = r.settings();
    assert!(!s.extent.include_media);
    assert_eq!(s.pages.as_deref(), Some("2-3"));
    assert_eq!(s.actions_len(), 0);
    assert_eq!(s.extent.offset, Some(9));
    r.options = Some(ScrapeOptions { include_media: None, actions: None, pages: None });
    assert_eq!(r.settings().actions_len(), 1);
}

#[test]
fn limits_are_clamped() {
    let mut c = CrawlRequest {
        url: String::new(),
        max_pages: None,
        max_depth: None,
        focus: None,
        max_chars: None,
        sitemap: None,
        discover_only: None,
        max_total_chars: Some(3),
    };
    let l = c.limits();
    assert_eq!((l.max_pages, l.max_depth, l.max_chars, l.max_total_chars), (5, 2, 8000, Some(3)));
    c.max_pages = Some(0);
    c.max_depth = Some(9);
    assert_eq!((c.limits().max_pages, c.limits().max_depth), (1, 4));
    c.max_pages = Some(99);
    c.max_depth = Some(0);
    assert_eq!((c.limits().max_pages, c.limits().max_depth), (20, 0));

    let mut s = SearchRequest {
        query: String::new(),
        max_results: None,
        site: None,
        exclude_sites: None,
        freshness: None,
    };
    assert_eq!(s.wanted(), 10);
    s.max_results = Some(0);
    assert_eq!(s.wanted(), 1);
    s.max_results = Some(21);
    assert_eq!(s.wanted(), 20);
    let b = ScrapeBatchRequest { urls: Vec::new(), focus: None, max_chars: None };
    assert_eq!(b.page_chars(), 40_000);
}

#[test]
fn jobs_are_decided() {
    let j = begin("https://a.org/x", None, &plain_settings(5)).unwrap();
    assert!(!j.ask_pdf && !j.drive_browser);
    assert_eq!(
        j.keys,
        vec!["10:https://a.org/x||5|0|false||0".to_string(), "https://a.org/x||5".to_string()]
    );
    assert_eq!(j.store_keys(false), j.keys);
    assert_eq!(j.store_keys(true), vec![j.keys[0].clone()]);
    assert!(begin("https://a.org/x.PDF?y", None, &plain_settings(5)).unwrap().ask_pdf);
    let mut r = request();
    r.pages = Some("1".to_string());
    r.actions = Some(vec![Action::Press("Enter".to_string())]);
    let j = begin("https://a.org/x", Some("q"), &r.settings()).unwrap();
    assert!(j.ask_pdf && j.drive_browser);
    assert_eq!(j.keys, vec!["11:p5:Enterhttps://a.org/x|q|40000|0|false|1|1".to_string()]);
    assert_eq!(
        begin("file:///x", None, &plain_settings(5)).err().unwrap().message(),
        "refusing non-http scheme: file"
    );
}

#[test]
fn keys_hold_links_and_actions() {
    let url = "https://a.org/x";
    let keys = |links: Option<bool>, actions: Option<Vec<Action>>| -> Vec<String> {
        let mut r = request();
        r.include_links = links;
        r.actions = actions;
        keys_of(url, None, &r.settings())
    };
    let plain = keys(None, None);
    assert_eq!(plain.len(), 2);
    assert_eq!(keys(Some(true), Some(Vec::new())), plain, "no actions are no actions");
    // An answer without links is another one.
    let without = keys(Some(false), None);
    assert_eq!(without, vec!["00:https://a.org/x||40000|0|false||0".to_string()]);
    // Runs of equally many, but different actions are told apart.
    let all: Vec<Vec<String>> = vec![
        keys(None, Some(vec![Action::Click("#a".to_string())])),
        keys(None, Some(vec![Action::Click("#b".to_string())])),
        keys(None, Some(vec![Action::Press("#a".to_string())])),
        keys(None, Some(vec![Action::Wait(7)])),
        keys(None, Some(vec![Action::Scroll(7)])),
        keys(None, Some(vec![Action::Fill { selector: "a".to_string(), text: "bc".to_string() }])),
        keys(None, Some(vec![Action::Fill { selector: "ab".to_string(), text: "c".to_string() }])),
        keys(Some(false), Some(vec![Action::Wait(7)])),
    ];
    assert_eq!(all[3], vec!["11:w7:https://a.org/x||40000|0|false||1".to_string()]);
    assert_eq!(all[5], vec!["11:f1:a2:bchttps://a.org/x||40000|0|false||1".to_string()]);
    for i in 0..all.len() {
        for j in 0..i {
            assert!(all[i].iter().all(|k| !all[j].contains(k)), "{:?} {:?}", all[i], all[j]);
        }
    }
    let mut r = request();
    r.offset = Some(0);
    assert_eq!(keys_of(url, None, &r.settings()), vec![plain[0].clone()]);
}

#[test]
fn pdf_addresses() {
    assert!(url_is_pdf("https://a/x.pdf"));
    assert!(url_is_pdf("https://a/X.PDF?page=1"));
    assert!(url_is_pdf("https://a/x.pdf#p"));
    assert!(!url_is_pdf("https://a/x?f=y.pdf"));
    assert!(!url_is_pdf("https://a/pdf"));
    assert!(!is_pdf_path("X.PDF"));
    assert!(worth_asking("https://a/", Some("1")) && !worth_asking("https://a/", None));
}

#[test]
fn pdfs_are_previewed() {
    let body = format!("%PDF-1.4 {}", "text ".repeat(20));
    let a = preview("https://a/x.pdf", Some("1-3"), 50, None, "Application/PDF", 200, body.as_bytes())
        .unwrap();
    assert_eq!(
        a.note.as_deref(),
        Some("PDF extraction requires pdf feature; returning raw text preview (109 bytes, content-type: application/pdf). pages=Some(\"1-3\"). Raw preview limited to 40000 chars.")
    );
    assert_eq!(a.markdown, body[..50]);
    assert!(a.truncated && a.content_ok && a.next_action.is_none());
    assert_eq!((a.next_offset, a.total_chars), (Some(50), 109));
    assert_eq!((a.page_type.as_str(), a.title.as_str()), ("media", "https://a/x.pdf"));
    assert_eq!(f32::from_bits(a.quality_bits), 0.6);

    let a = preview("https://a/x.pdf", None, 50, Some(100), "text/html", 200, body.as_bytes()).unwrap();
    assert!(!a.content_ok);
    assert_eq!(f32::from_bits(a.quality_bits), 0.2);
    assert!(a.next_action.unwrap().starts_with("PDF extraction is minimal"));

    let a = preview("https://a/x.pdf", None, 50, None, "text/html", 200, b"plain").unwrap();
    assert_eq!(
        a.note.as_deref(),
        Some("URL ends with .pdf but Content-Type is text/html and header not %PDF; returning raw preview (5 bytes). pages=None")
    );
}

#[test]
fn what_is_no_pdf_is_left_alone() {
    assert!(preview("https://a/x", Some("1"), 9, None, "text/html", 200, b"x").is_none());
    assert!(preview("https://a/x.pdf", None, 9, None, "text/html", 404, b"x").is_none());
    let body = b"%PDF-1.4 and more text here";
    assert!(preview("https://a/x", Some("1"), 9, None, "", 404, body).is_some());
}

#[test]
fn previews_count_characters() {
    let a = preview("https://a/x.pdf", None, 1, None, "", 200, "äö".as_bytes()).unwrap();
    assert_eq!((a.markdown.as_str(), a.truncated), ("ä", true));
    assert_eq!((a.total_chars, a.next_offset), (2, Some(2)));
}

#[test]
fn invalid_bytes_are_replaced() {
    let a = preview("https://a/x.pdf", None, 99, None, "", 200, b"a\xffb").unwrap();
    assert_eq!(a.markdown, "a\u{fffd}b");
    let long = "x".repeat(50_000);
    let a = present("u", &long, "n".to_string(), None, 60_000);
    assert_eq!((a.markdown.len(), a.truncated), (40_000, false));
    let e = Evidence { by_address: true, by_type: false, by_signature: false, status: 500 };
    assert!(!e.suffices());
    assert!(write_note(e, "t", 1, "None").starts_with("URL ends with .pdf"));
}

#[test]
fn batches_keep_the_order_of_the_request() {
    let urls = vec!["b".to_string(), "a".to_string(), "b".to_string(), "c".to_string()];
    let mut ok = failed("a", "x");
    ok.content_ok = true;
    let outs = vec![
        Outcome { url: "a".to_string(), answer: Ok(ok) },
        Outcome { url: "b".to_string(), answer: Err("first".to_string()) },
        Outcome { url: "b".to_string(), answer: Err("second".to_string()) },
    ];
    let r = gather(&urls, &outs);
    assert_eq!((r.total, r.results.len(), r.ok_count), (4, 4, 1));
    let answered: Vec<&str> = r.results.iter().map(|a| a.url.as_str()).collect();
    assert_eq!(answered, vec!["b", "a", "b", "c"], "one answer for each page, in order");
    assert_eq!(r.results[0].note.as_deref(), Some("fetch failed: second"));
    assert_eq!(
        r.results[0].next_action.as_deref(),
        Some("try another URL or check connectivity")
    );
    assert!(r.results[1].content_ok);
    assert_eq!(r.results[2].note.as_deref(), Some("fetch failed: second"));
    // A page for which nothing came back has failed too.
    assert!(!r.results[3].content_ok && r.results[3].markdown.is_empty());
    assert_eq!(r.results[3].note.as_deref(), Some("fetch failed: no answer came back"));
    // Outcomes of different pages may come in any order.
    let outs: Vec<Outcome> = outs.into_iter().rev().collect();
    let swapped = gather(&urls, &outs);
    assert_eq!((swapped.total, swapped.ok_count), (4, 1));
    assert_eq!(swapped.results[0].note.as_deref(), Some("fetch failed: first"));
    assert_eq!(swapped.results[1].url, "a");
    // A page that was asked for twice counts twice.
    let mut ok = failed("a", "x");
    ok.content_ok = true;
    let twice = vec!["a".to_string(), "a".to_string()];
    let r = gather(&twice, &[Outcome { url: "a".to_string(), answer: Ok(ok) }]);
    assert_eq!((r.total, r.ok_count), (2, 2));
    assert!(admissible(&urls) && !admissible(&[]));
    assert!(!admissible(&vec!["u".to_string(); 11]) && admissible(&vec!["u".to_string(); 10]));
}

#[test]
fn actions_become_steps() {
    let steps = browser_steps(&[
        Action::Click("#a".to_string()),
        Action::Fill { selector: "#b".to_string(), text: "t".to_string() },
        Action::Press("Enter".to_string()),
        Action::Wait(5),
        Action::Scroll(800),
    ]);
    let shown: Vec<String> = steps
        .iter()
        .map(|s| match s {
            Step::Sleep(ms) => format!("sleep {ms}"),
            Step::Click(s) => format!("click {s}"),
            Step::Fill { selector, text } => format!("fill {selector} {text}"),
            Step::Press(k) => format!("press {k}"),
            Step::Evaluate(e) => format!("eval {e}"),
        })
        .collect();
    assert_eq!(
        shown.join("; "),
        "sleep 700; click #a; sleep 300; fill #b t; sleep 300; press Enter; sleep 300; \
         sleep 5; sleep 300; eval window.scrollBy(0,800); sleep 250; sleep 300; sleep 600"
    );
}

#[test]
fn screenshots_are_encoded_and_cut() {
    assert_eq!(screenshot_text(b"png!"), "cG5nIQ==");
    assert_eq!(screenshot_text(&[0u8; 15_000]).len(), 20_000);
    let cut = screenshot_text(&[0u8; 15_001]);
    assert_eq!(cut, format!("{}...[truncated 15001 bytes]", "A".repeat(20_000)));
    assert_eq!(shorten("abc".to_string(), 9), "abc");
    assert_eq!(shorten("äöü".to_string(), 9), "äöü");
}
