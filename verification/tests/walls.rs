use scour::fetcher::{
    block_reason, escalation, find_sub, judge, look_again, settle, visible_and_script_len, Fetched,
    Tier,
};

fn pad(html: &str) -> String {
    // Push past the near-empty guard so that the later layers are reached.
    format!("{html}<!--{}-->", "p".repeat(600))
}

#[test]
fn detects_known_vendors_and_status() {
    assert!(block_reason(403, &"x".repeat(9000)).is_some());
    assert!(block_reason(200, &pad("<html><title>Just a moment...</title></html>")).is_some());
    assert!(
        block_reason(200, &pad("<script src='/cdn-cgi/challenge-platform/h/b/x'></script>"))
            .is_some(),
        "vendor infra path should be caught without any English copy"
    );
}

#[test]
fn catches_unknown_vendor_with_200_and_no_marker() {
    let wall = format!(
        "<html><body><p>Access verification</p>\
         <script>{}</script></body></html>",
        "var a=1;".repeat(400)
    );
    assert!(block_reason(200, &wall).is_some());
}

#[test]
fn passes_real_pages_including_short_static_ones() {
    let article = format!(
        "<html><body><article>{}</article></body></html>",
        "word ".repeat(400)
    );
    assert!(block_reason(200, &article).is_none());

    // A short page without scripts must not trigger a browser escalation.
    let small = format!(
        "<html><body><h1>Example Domain</h1><p>{}</p></body></html>",
        "This domain is for use in documentation. ".repeat(12)
    );
    assert!(block_reason(200, &small).is_none());

    // A long article that merely quotes an interstitial phrase.
    let quoting = format!(
        "<html><body><article>Cloudflare shows 'just a moment' while checking your browser. {}</article></body></html>",
        "analysis text ".repeat(6000)
    );
    assert!(block_reason(200, &quoting).is_none());
}

#[test]
fn script_and_text_accounting() {
    let (vis, scr) = visible_and_script_len("<p>abc def</p><script>xxxxxxxx</script>");
    assert_eq!(vis, 6, "visible counts non-whitespace text only");
    assert!(scr >= 8, "script bytes counted");
}

#[test]
fn script_bytes_are_exact() {
    // The script counts from its opening tag to its closing one.
    assert_eq!(visible_and_script_len("<p>abc def</p><script>xxxxxxxx</script>"), (6, 16));
    assert_eq!(visible_and_script_len(""), (0, 0));
    assert_eq!(visible_and_script_len("<STYLE>a{}</Style>b"), (1, 10));
    assert_eq!(visible_and_script_len("<script>never closed"), (0, 20));
    assert_eq!(visible_and_script_len("<p unclosed"), (0, 0));
}

#[test]
fn text_before_a_page_is_visible() {
    let page = "<p>abc</p><script>x()</script>d";
    let (visible, script) = visible_and_script_len(page);
    assert_eq!(visible_and_script_len(&format!(" one tw\u{f6}>\n{page}")), (visible + 8, script));
    // Capital letters change nothing.
    assert_eq!(visible_and_script_len(&page.to_uppercase()), (visible, script));
}

#[test]
fn reasons_are_worded() {
    let page = "x".repeat(9000);
    for status in [401u16, 403, 429, 503] {
        assert_eq!(block_reason(status, &page), Some(format!("HTTP {status} from origin")));
    }
    for status in [200u16, 404, 407, 500] {
        assert_eq!(block_reason(status, &page), None);
    }
    assert_eq!(block_reason(200, "short"), Some("near-empty response body".to_string()));
    assert_eq!(block_reason(200, &"x".repeat(499)), Some("near-empty response body".to_string()));
    assert_eq!(block_reason(200, &"x".repeat(500)), None);
    for (mark, vendor) in [
        ("/cdn-cgi/challenge-platform", "Cloudflare"),
        ("captcha-delivery.com", "DataDome"),
        ("_Incapsula_Resource", "Imperva"),
        ("px-captcha", "PerimeterX"),
        ("/_sec/cp_challenge", "Akamai"),
        ("geo.captcha", "DataDome"),
    ] {
        assert_eq!(block_reason(200, &pad(mark)), Some(format!("{vendor} challenge page")));
    }
    assert_eq!(
        block_reason(200, &pad("Please Enable JavaScript")),
        Some("bot interstitial text".to_string())
    );
    let shell = format!("<p>hi</p><script>{}</script>", "a".repeat(600));
    assert_eq!(
        block_reason(200, &shell),
        Some(
            "thin body dominated by scripts (2B text vs 608B script) \
             - challenge page or client-rendered shell"
                .to_string()
        )
    );
}

#[test]
fn large_pages_are_not_searched_for_phrases() {
    let mut page = pad("just a moment");
    assert!(block_reason(200, &page).is_some());
    page.push_str(&"<p>text</p>".repeat(6000));
    assert!(page.len() >= 60_000);
    assert_eq!(block_reason(200, &page), None);
}

#[test]
fn only_the_start_is_searched() {
    let late = format!("{}just a moment", "x".repeat(16_384));
    assert_eq!(block_reason(200, &late), None);
    let early = format!("{}just a moment", "x".repeat(16_384 - 13));
    assert!(block_reason(200, &early).is_some());
}

#[test]
fn judging_goes_by_the_given_head() {
    let page = "x".repeat(600);
    assert_eq!(judge(200, &page, "px-captcha"), Some("PerimeterX challenge page".to_string()));
    assert_eq!(judge(200, &page, ""), None);
}

#[test]
fn substrings_are_found() {
    assert_eq!(find_sub(b"abcabc", b"ca"), Some(2));
    assert_eq!(find_sub(b"abc", b"x"), None);
    assert_eq!(find_sub(b"", b"x"), None);
}

#[test]
fn ladder_keeps_clean_pages_and_escalates_walls() {
    let clean = Fetched::from_http(200, "<p>text</p>".repeat(100));
    assert!(!clean.blocked);
    assert!(clean.reason.is_none());
    assert_eq!(clean.tier, Tier::Http);
    assert!(escalation(&Some(clean)).is_none());

    let wall = Fetched::from_http(403, "no".to_string());
    assert!(wall.blocked && !wall.escalated);
    assert_eq!(
        escalation(&Some(wall)),
        Some((403, Some("HTTP 403 from origin".to_string())))
    );
    assert_eq!(escalation(&None), Some((0, None)));
}

#[test]
fn browser_answers_where_it_can() {
    let wall = Fetched::from_http(403, "no".to_string());
    let rendered = Fetched::from_browser(
        "<p>text</p>".repeat(100),
        403,
        Some("HTTP 403 from origin".to_string()),
    );
    assert!(!rendered.blocked && rendered.escalated);
    assert_eq!(rendered.first_status, 403);
    let got = settle(Some(wall), Some(rendered)).unwrap();
    assert_eq!(got.tier.name(), "chrome");
    assert_eq!(got.first_reason.as_deref(), Some("HTTP 403 from origin"));

    // Without a browser the blocked answer is better than none.
    let wall = Fetched::from_http(403, "no".to_string());
    let got = settle(Some(wall), None).unwrap();
    assert!(got.blocked);
    assert_eq!(got.tier.name(), "http");
    assert!(settle(None, None).is_none());
}

#[test]
fn walls_are_waited_for_until_the_deadline() {
    let clean = "<p>text</p>".repeat(100);
    assert!(!look_again(&clean, true));
    assert!(look_again("wall", true));
    assert!(!look_again("wall", false));
}

#[test]
fn actions_escalate_without_a_first_reason() {
    let got = Fetched::from_actions("<p>text</p>".repeat(100));
    assert!(got.escalated && got.first_reason.is_none() && !got.blocked);
    assert_eq!((got.status, got.first_status), (200, 200));
}
