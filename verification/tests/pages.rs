use scour::answer::{assess, extract_headings, read, respond, Extent};
use scour::extractor::{
    extract, extract_links, extract_meta, generate_link_markdown, is_table_artifact, page_type,
    pick_title, visible_text_len, CleanDoc, ExtractError, Link,
};
use scour::fetcher::Fetched;
use scour::bindings::html::Node;
use scour::markup::{all_settled, can_convert, role, Role};
use scour::media::extract_media;

fn extent(max_chars: usize) -> Extent {
    Extent { max_chars, include_links: true, offset: None, include_media: false }
}

#[test]
fn strips_scripts_and_makes_markdown() {
    let html = format!(
        "<html><head><title>T</title></head><body><article><h1>Hello</h1>\
         <script>alert(1)</script><p>{}</p></article></body></html>",
        "real body text ".repeat(40)
    );
    let d = extract(&html, "https://example.com/a").unwrap();
    assert!(!d.clean_html.contains("<script"), "script survived sanitizer");
    assert!(d.markdown.contains("real body text"));
    assert!(d.text.contains("real body text"));
}

#[test]
fn fallback_captures_list_pages() {
    let mut html = String::from("<html><head><title>Hacker News</title></head><body>");
    for i in 0..30i32 {
        html.push_str(&format!(r#"<div><a href="https://example.com/{i}">Article {i}</a> <span>{} points</span></div>"#, i*10));
    }
    html.push_str("</body></html>");
    let d = extract(&html, "https://news.ycombinator.com").unwrap();
    assert!(d.links.len() >= 20, "should extract many links, got {}", d.links.len());
    assert!(d.page_type == "list" || d.markdown.len() > 500, "should be list or have substantial markdown, got type={} len={}", d.page_type, d.markdown.len());
}

#[test]
fn short_article_not_misclassified_as_list() {
    let html = r#"<html><head><title>Example Domain</title></head><body><h1>Example Domain</h1><p>This domain is for use in documentation examples without needing permission. Avoid use in operations.</p><p><a href="https://iana.org/domains/example">Learn more</a></p></body></html>"#;
    let d = extract(&html, "https://example.com").unwrap();
    assert_eq!(d.page_type, "article");
    assert!(d.title.contains("Example Domain") || d.markdown.contains("Example Domain"));
    assert!(d.markdown.contains("This domain"));
}

#[test]
fn media_extraction_finds_images() {
    let html = r#"<html><body><img src="/a.jpg"><img src="https://example.com/b.png"><img src="data:image/png;base64,xxx"></body></html>"#;
    let media = extract_media(html, "https://example.com/page");
    assert!(media.iter().any(|u| u.contains("a.jpg")));
    assert!(media.iter().any(|u| u.contains("b.png")));
    assert!(!media.iter().any(|u| u.contains("data:")));
}

#[test]
fn images_are_resolved_listed_once_and_capped() {
    let mut html = String::from("<body><img src=' /a.jpg '><img src='a.jpg'><img src=''><img src='/a.jpg'>");
    assert_eq!(
        extract_media(&html, "https://example.com/page"),
        vec!["https://example.com/a.jpg".to_string()]
    );
    // Without a base the source stands as it is.
    assert_eq!(extract_media("<img src='x/y.png'>", "no base"), vec!["x/y.png".to_string()]);
    html.push_str(&format!("<img src='/{}'>", "z".repeat(3000)));
    for i in 0..80u32 {
        html.push_str(&format!("<img src='/{i}.png'>"));
    }
    let media = extract_media(&html, "https://example.com/page");
    assert_eq!(media.len(), 50);
    assert_eq!(media[49], "https://example.com/48.png");
}

#[test]
fn links_are_resolved_and_clipped() {
    let html = format!(
        "<a href='/b'> two\n words </a><a href='#top'>top</a><a href='javascript:x'>x</a>\
         <a href='https://other.org/'></a><a href='/long'>{}</a>",
        "t".repeat(150)
    );
    let links = extract_links(&html, "https://example.com/a");
    assert_eq!(links.len(), 2);
    assert_eq!(links[0].href, "https://example.com/b");
    assert_eq!(links[0].text, "two words");
    assert_eq!(links[1].text, "t".repeat(100));
    // A hundred characters, however many bytes they take.
    let wide = format!("<a href='/b'>{}</a>", "日".repeat(40));
    assert_eq!(extract_links(&wide, "https://example.com/")[0].text, "日".repeat(40));
    let wide = format!("<a href='/b'>x{}</a>", "日".repeat(120));
    assert_eq!(extract_links(&wide, "https://example.com/")[0].text, format!("x{}", "日".repeat(99)));
    let many = "<a href='/b'>b</a>".repeat(130);
    assert_eq!(extract_links(&many, "https://example.com/").len(), 100);
}

#[test]
fn metadata_is_trimmed() {
    let html = "<head><title> A title </title><meta name='description' content=' About it '></head>";
    assert_eq!(
        extract_meta(html),
        (Some("A title".to_string()), Some("About it".to_string()))
    );
    assert_eq!(extract_meta("<title>  </title>"), (None, None));
    assert_eq!(pick_title(" ".to_string(), Some("meta".to_string())), "meta");
    assert_eq!(pick_title("own".to_string(), Some("meta".to_string())), "own");
    assert_eq!(pick_title(String::new(), None), "");
}

#[test]
fn tables_without_words_are_artifacts() {
    assert!(is_table_artifact(&"|  a ".repeat(21)));
    assert!(!is_table_artifact(&"|  a ".repeat(20)));
    assert!(!is_table_artifact(&"|  ".repeat(30)));
    // Exactly one bar for twenty letters is not enough.
    assert!(!is_table_artifact(&"|  abcdefghijklmnopqrst".repeat(30)));
    assert!(is_table_artifact(&"|  abcdefghijklmnopqrs".repeat(30)));
}

#[test]
fn link_pages_list_each_target_once() {
    let links = vec![
        Link { href: "https://a/1".to_string(), text: "one".to_string() },
        Link { href: "https://a/1".to_string(), text: "again".to_string() },
        Link { href: "https://a/2".to_string(), text: "two".to_string() },
    ];
    assert_eq!(
        generate_link_markdown("Title", &links, "<body>some <b>bold</b>\n text</body>"),
        "# Title\n\nsome bold text\n\n- [one](https://a/1)\n- [two](https://a/2)"
    );
    assert_eq!(
        generate_link_markdown("", &links[2..], "<body>x</body>"),
        "x\n\n- [two](https://a/2)"
    );
    let wide = format!("<body>x{}</body>", "ä".repeat(2500));
    assert_eq!(
        generate_link_markdown("", &links[2..], &wide),
        format!("x{}\n\n- [two](https://a/2)", "ä".repeat(1999))
    );
}

#[test]
fn layout_tables_become_lists_of_links() {
    let mut html = String::from("<html><head><title>News</title></head><body><table>");
    for i in 0..60u32 {
        html.push_str(&format!("<tr><td> </td><td><a href='/{i}'>Some longer story {i}</a></td><td> </td></tr>"));
    }
    html.push_str("</table></body></html>");
    let d = extract(&html, "https://example.com/").unwrap();
    assert!(d.markdown.starts_with("# News\n\n"), "{}", d.markdown);
    assert!(d.markdown.contains("\n- [Some longer story 49](https://example.com/49)"));
    assert!(!d.markdown.contains("[Some longer story 50]"));
    assert!(!d.markdown.contains('|'));
    assert_eq!(d.text, d.markdown);
}

#[test]
fn kinds_of_pages() {
    let many: Vec<Link> = (0..30u32)
        .map(|i| Link { href: format!("https://a/{i}"), text: "t".to_string() })
        .collect();
    assert_eq!(page_type("", &many, 799, 1999), "article");
    assert_eq!(page_type("", &many, 9000, 90_000), "list");
    assert_eq!(page_type("\n# h", &many, 9000, 90_000), "article");
    // Three links for each two hundred bytes are not too many, one more is.
    assert_eq!(page_type("\n# h", &many, 2000, 90_000), "article");
    assert_eq!(page_type("\n# h", &many, 1999, 90_000), "list");
    assert_eq!(page_type(&"\n- x".repeat(11), &many, 9000, 90_000), "list");
    assert_eq!(page_type("", &many[..16], 4999, 90_000), "list");
    assert_eq!(page_type("![x](y)", &many[..3], 499, 90_000), "media");
    assert_eq!(page_type("text", &many[..3], 301, 90_000), "article");
    assert_eq!(page_type("text", &many[..3], 300, 90_000), "unknown");
}

#[test]
fn visible_text_is_scanned() {
    assert_eq!(visible_text_len("<p>ab c</p><script>x</script>d"), Some(4));
    assert_eq!(visible_text_len(""), Some(0));
    // Lower-casing the Kelvin sign saves two bytes, which the scan notices.
    assert_eq!(visible_text_len("\u{212A}"), None);
}

#[test]
fn addresses_that_are_no_url_are_reported() {
    assert!(matches!(
        extract("<p>x</p>", "not a url"),
        Err(ExtractError::InvalidUrl(m)) if m == "relative URL without a base"
    ));
    // A page that gets shorter in lower case cannot be scanned.
    assert!(matches!(
        extract("\u{212A}", "https://example.com/"),
        Err(ExtractError::Unscannable)
    ));
    for (page, url) in [("\u{212A}", "https://example.com/"), ("<p>x</p>", "not a url")] {
        let d = read(page, url);
        assert_eq!(d.page_type, "unknown");
        assert!(d.markdown.is_empty() && d.links.is_empty());
    }
}

#[test]
fn stray_list_items_are_no_failure() {
    // The item takes the white space away that was there when the mark was noted.
    for page in [
        "<p></p><b><li>x</li></b>",
        "<p></p><a href='/y'><li>x</li></a>",
        "<div>abc<b><li>x</li></b></div>",
        "<p></p><blockquote><div><li>x</li></div></blockquote>",
        "<p>Über uns</p><b><li>ü</li></b>",
        "<ul><li><table><tr><td><p></p><em><li>x</li></em></td></tr></table></li></ul>",
    ] {
        assert!(!can_convert(page), "{page}");
    }
    let mut replaced: usize = 0;
    for page in [
        "<p></p><b><li>x</li></b>",
        "<p></p><a href='/y'><li>x</li></a>",
        "<div>abc<b><li>x</li></b></div>",
        "<p>Über uns</p><b><li>ü</li></b>",
    ] {
        let d = extract(page, "https://example.com/").unwrap();
        if can_convert(&d.clean_html) {
            assert_eq!(d.markdown, html2md::parse_html(&d.clean_html));
        } else {
            assert_eq!(d.markdown, generate_link_markdown("", &d.links, &d.clean_html));
            replaced += 1;
        }
        assert_eq!(read(page, "https://example.com/").markdown, d.markdown);
    }
    assert!(replaced > 0, "{replaced}");
    assert!(matches!(
        extract("<p></p><b><li>x</li></b>", "no address"),
        Err(ExtractError::InvalidUrl(_))
    ));
}

#[test]
fn items_outside_lists_are_converted() {
    let intro = extract("<p>Intro text</p><b><li>x</li></b>", "https://example.com/").unwrap();
    assert_eq!(intro.markdown, "Intro text\n\n    **x**");
    for page in [
        "<li>x</li>",
        "<b><li>x</li></b>",
        "<a href='/y'><i><li>ü</li></i></a>",
        "<p></p><li><b>x</b></li>",
        "<b><ul><li>x</li></ul></b>",
        "<ol><li><a href='/y'>x</a></li><li>y</li></ol>",
        "<p>Intro text</p><blockquote><li>x</li></blockquote>",
        "<div>abc<b><li>xy</li></b></div>",
        "<p></p><b><table><tr><td><li>x</li></td></tr></table></b>",
        "<table><tr><td><p>Intro</p><em><li>x</li></em></td></tr></table>",
        "<p></p><b><pre><li>x</li></pre></b>",
        "<pre><table><tr><td><p></p><b><li>x</li></b></td></tr></table></pre>",
        "<p></p><table><tr><td><pre><b><li>x</li></b></pre></td></tr></table>",
        "<p>Über uns</p><ul><li><b>ü</b></li></ul>",
    ] {
        assert!(can_convert(page), "{page}");
        assert!(extract(page, "https://example.com/").is_ok(), "{page}");
        html2md::parse_html(page);
    }
}

#[test]
fn convertible_pages_are_converted() {
    const PARTS: [&str; 52] = [
        "<li>", "<li>", "<li>", "</li>", "<b>", "</b>", "<a href='/x'>", "</a>", "<em>", "</em>",
        "<blockquote>", "</blockquote>", "<q>", "</q>", "<p>", "</p>", "<div>", "</div>",
        "<section>", "</section>", "<ul>", "</ul>", "<pre>", "</pre>", "<sub>", "</sub>",
        "<table><tr><td>", "</td></tr></table>", "</td><td>", "<h2>", "</h2>", "<br>", "<hr>",
        "<img src='i.png' alt='i'>", "<iframe src='https://www.youtube.com/embed/abc'>",
        "</iframe>", "<span>", "</span>", "<del>", "</del>", " ", "\n", "abc", "abcdefgh ijkl",
        " x", "- ", "é", "<a name='n'>", "<i>", "</i>", "<details>", "</details>",
    ];
    let mut state: u64 = 7;
    let mut converted: usize = 0;
    for _ in 0..3000 {
        let mut page = String::new();
        for _ in 0..14 {
            state = state.wrapping_mul(6364136223846793005).wrapping_add(1442695040888963407);
            page.push_str(PARTS[(state >> 33) as usize % PARTS.len()]);
        }
        if can_convert(&page) {
            html2md::parse_html(&page);
            converted += 1;
        }
    }
    assert!(converted > 1500);
}

fn node(depth: usize, name: &str) -> Node {
    Node { depth, name: Some(name.to_string()), words: Vec::new() }
}

fn words(depth: usize, text: &str) -> Node {
    Node { depth, name: None, words: vec![text.to_string()] }
}

#[test]
fn roles_of_elements() {
    assert_eq!(role("li"), Role::Item);
    assert_eq!(role("menu"), Role::List);
    assert_eq!(role("th"), Role::Cell);
    assert_eq!(role("table"), Role::Table);
    assert_eq!(role("iframe"), Role::Frame);
    assert_eq!(role("template"), Role::Template);
    assert_eq!(role("sup"), Role::Verbatim);
    assert_eq!(role("del"), Role::Mark);
    assert_eq!(role("cite"), Role::Quote);
    assert_eq!(role("footer"), Role::Block);
    assert_eq!(role("h6"), Role::Gap);
    assert_eq!(role("code"), Role::Sign);
    assert_eq!(role("u"), Role::Other);
}

#[test]
fn positions_are_weighed() {
    // Nothing is written before the mark.
    assert!(all_settled(&[node(1, "b"), node(2, "li"), words(3, "x")]));
    // The list stands beside the item, not around it.
    let beside = [node(1, "p"), node(1, "b"), node(2, "ul"), node(2, "li"), words(3, "x")];
    assert!(!all_settled(&beside));
    let around = [node(1, "p"), node(1, "b"), node(2, "ul"), node(3, "li"), words(4, "x")];
    assert!(all_settled(&around));
    // Two line feeds are taken away, and as many letters and digits come back.
    let inside = |t: &str| [
        node(1, "div"), words(2, "a"), node(2, "b"), node(3, "li"), words(4, t),
    ];
    assert!(!all_settled(&inside("x")) && all_settled(&inside("x1")));
    assert!(!all_settled(&inside("x1é")) && !all_settled(&inside("x1%C3")));
    assert!(all_settled(&inside("x1%41")));
    // A named anchor is written at once; another one only where it ends.
    let anchor = |name: &str, value: &str| [
        Node {
            depth: 1,
            name: Some("a".to_string()),
            words: vec![name.to_string(), value.to_string()],
        },
        node(2, "b"),
        node(3, "li"),
        words(4, "ü"),
    ];
    assert!(all_settled(&anchor("class", "name")) && !all_settled(&anchor("name", "n")));
    // A template is no part of the document.
    let held = [node(1, "b"), node(2, "template"), node(2, "li")];
    assert!(!all_settled(&held));
    assert!(all_settled(&[]));
}

#[test]
fn headings_are_listed() {
    assert_eq!(
        extract_headings("# One\ntext\n  ## Two \r\n#Three"),
        vec!["# One".to_string(), "## Two".to_string(), "#Three".to_string()]
    );
    assert_eq!(extract_headings(&"# h\n".repeat(30)).len(), 20);
    assert!(extract_headings("").is_empty());
}

fn doc(markdown: &str, text: &str, kind: &str, links: usize) -> CleanDoc {
    let mut d = CleanDoc::empty();
    d.markdown = markdown.to_string();
    d.text = text.to_string();
    d.page_type = kind.to_string();
    for i in 0..links {
        d.links.push(Link { href: format!("https://a/{i}"), text: "t".to_string() });
    }
    d
}

#[test]
fn walls_are_never_content() {
    let wall = Fetched::from_http(403, "no".to_string());
    let v = assess(&doc(&"a".repeat(900), &"a".repeat(900), "article", 3), &wall);
    assert!(!v.content_ok);
    assert_eq!(
        v.note.as_deref(),
        Some("bot protection not bypassed (tier http, HTTP 403 from origin); no article recovered")
    );
    assert!(v.next_action.unwrap().starts_with("site likely uses DataDome/Turnstile/Akamai"));
    // A browser that was sent for a wall and renders nothing did not get through.
    let shell = Fetched::from_browser("<p>text</p>".repeat(300), 403, Some("why".to_string()));
    assert!(!shell.blocked);
    let v = assess(&doc("", "", "unknown", 0), &shell);
    assert_eq!(
        v.note.as_deref(),
        Some("bot protection not bypassed (tier chrome, why); no article recovered")
    );
}

#[test]
fn thin_pages_are_explained_and_lists_excused() {
    let page = Fetched::from_http(200, "<p>text</p>".repeat(300));
    let v = assess(&doc("", "", "unknown", 0), &page);
    assert!(!v.content_ok);
    assert_eq!(
        v.note.as_deref(),
        Some("no article extracted from 3300 bytes of HTML (app shell, index, or media page) - type: unknown")
    );
    assert_eq!(
        v.next_action.as_deref(),
        Some("page has no prose to extract - try a specific article URL")
    );
    assert!(assess(&doc(&"a".repeat(101), "", "list", 0), &page).content_ok);
    assert!(!assess(&doc(&"a".repeat(100), "", "list", 10), &page).content_ok);
    assert!(assess(&doc(&"a".repeat(51), "", "list", 11), &page).content_ok);
    assert!(!assess(&doc(&"a".repeat(50), "", "list", 11), &page).content_ok);
    let v = assess(&doc(&"a".repeat(200), &"a".repeat(100), "article", 0), &page);
    assert!(v.content_ok && v.note.is_none() && v.next_action.is_none());
}

#[test]
fn answers_are_put_together() {
    let page = Fetched::from_http(200, "<img src='/i.png'>".repeat(100));
    let md = format!("# One\n\n{}\n\n# Two\n\nrest", "a".repeat(300));
    let mut e = extent(310);
    e.include_media = true;
    let a = respond("https://a/", doc(&md, &md, "article", 60), &page, None, &[], e, 7);
    assert_eq!(a.markdown, format!("# One\n\n{}", "a".repeat(300)));
    assert!(a.truncated && a.content_ok && !a.blocked);
    assert_eq!(a.next_offset, Some(307));
    assert_eq!(a.total_chars, md.len());
    assert_eq!(a.links.len(), 50);
    assert_eq!(a.headings, vec!["# One".to_string()]);
    assert_eq!(a.media, vec!["https://a/i.png".to_string()]);
    assert_eq!((a.tier.as_str(), a.quality_bits), ("http", 7));

    let mut e = extent(1000);
    e.offset = Some(307);
    e.include_links = false;
    let b = respond("https://a/", doc(&md, &md, "article", 60), &page, None, &[], e, 7);
    assert_eq!(b.markdown, "\n\n# Two\n\nrest");
    assert!(!b.truncated && b.next_offset.is_none() && b.links.is_empty() && b.media.is_empty());
    assert_eq!(format!("{}{}", a.markdown, b.markdown), md);
}

#[test]
fn answers_are_narrowed_to_a_query() {
    let page = Fetched::from_http(200, "<p>text</p>".repeat(100));
    let md = format!("cats {}\n\ndogs\n\nmore cats", "a".repeat(300));
    let d = doc(&md, &md, "article", 0);
    let a = respond("https://a/", d, &page, Some("cats"), &[1, 2, 3], extent(9000), 0);
    assert_eq!(a.markdown, format!("cats {}\n\nmore cats", "a".repeat(300)));
    assert_eq!(a.total_chars, md.len());
    // An unusable page is not narrowed.
    let wall = Fetched::from_http(403, "no".to_string());
    let d = doc(&md, &md, "article", 0);
    let a = respond("https://a/", d, &wall, Some("cats"), &[1, 2, 3], extent(9000), 0);
    assert_eq!(a.markdown, md);
    assert!(a.blocked && !a.content_ok);
}

#[test]
fn answers_count_characters() {
    let page = Fetched::from_http(200, "<p>text</p>".repeat(100));
    let a = respond("https://a/", doc("ääää", "", "list", 0), &page, None, &[], extent(3), 0);
    assert_eq!((a.markdown.as_str(), a.truncated), ("äää", true));
    assert_eq!((a.next_offset, a.total_chars), (Some(6), 4));
    let a = respond("https://a/", doc("ääää", "", "list", 0), &page, None, &[], extent(4), 0);
    assert_eq!((a.markdown.as_str(), a.truncated), ("ääää", false));
}

#[test]
fn whole_pages_become_answers() {
    let html = format!(
        "<html><head><title>T</title><meta name='description' content='D'></head><body><article><h1>Hello</h1><p>{}</p></article></body></html>",
        "real body text ".repeat(60)
    );
    let page = Fetched::from_http(200, html.clone());
    let d = read(&html, "https://example.com/a");
    let a = respond("https://example.com/a", d, &page, None, &[], extent(40_000), 0);
    assert!(a.content_ok);
    assert_eq!(a.description.as_deref(), Some("D"));
    assert!(a.markdown.contains("real body text"));
}
