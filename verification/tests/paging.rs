use scour::paging::{chunk, slice_at_offset, truncate};

#[test]
fn truncate_breaks_on_paragraph() {
    let md = format!("{}\n\n{}", "a".repeat(300), "b".repeat(300));
    let (out, cut) = truncate(&md, 400);
    assert!(cut);
    assert!(!out.contains('b'));
    let (whole, cut2) = truncate("short", 400);
    assert_eq!((whole.as_str(), cut2), ("short", false));
}

#[test]
fn offset_slices_before_truncate() {
    let md = "aaaa\n\nbbbb\n\ncccc\n\ndddd";
    let sliced = slice_at_offset(md, 6);
    assert!(sliced.starts_with("bbbb"));
    let (out, truncated) = truncate(&sliced, 8);
    assert!(truncated || out.len() <= 8 || out.contains("bbbb"));
}

#[test]
fn next_offset_computed_when_truncated() {
    let md = "a".repeat(500);
    let offset: usize = 100;
    let sliced = slice_at_offset(&md, offset);
    let (out, truncated) = truncate(&sliced, 50);
    let next = if truncated { Some(offset + out.len()) } else { None };
    assert_eq!(next, Some(150));
    let c = chunk(&md, offset, 50);
    assert_eq!((c.markdown.len(), c.truncated, c.next_offset), (50, true, Some(150)));
}

#[test]
fn the_last_break_within_the_limit_is_the_cut() {
    let md = format!("aa\n\n{}", "b".repeat(300));
    assert_eq!(truncate(&md, 100), ("aa".to_string(), true));
    assert_eq!(truncate("ab\n\ncd", 4), ("ab".to_string(), true));
    assert_eq!(truncate("abc\n\ncd", 5), ("abc".to_string(), true));
    assert_eq!(truncate("a\n\nb\n\ncdef", 7), ("a\n\nb".to_string(), true));
    // Half of a break is none, and neither is one at the very start.
    assert_eq!(truncate("abc\n\ncd", 4), ("abc\n".to_string(), true));
    assert_eq!(truncate("\n\nabcd", 4), ("\n\nab".to_string(), true));
    assert_eq!(truncate("abc", 0), (String::new(), true));
}

#[test]
fn limits_count_characters() {
    assert_eq!(truncate("é", 1), ("é".to_string(), false));
    assert_eq!(truncate("ééé", 2), ("éé".to_string(), true));
    let text = "日本語の本文".repeat(10);
    let c = chunk(&text, 0, 7);
    assert_eq!((c.markdown.chars().count(), c.next_offset), (7, Some(21)));
}

#[test]
fn offsets_are_moved_out_of_characters() {
    assert_eq!(slice_at_offset("aäb", 0), "aäb");
    assert_eq!(slice_at_offset("aäb", 1), "äb");
    assert_eq!(slice_at_offset("aäb", 2), "b");
    assert_eq!(slice_at_offset("aäb", 3), "b");
    assert_eq!(slice_at_offset("aäb", 4), "");
    assert_eq!(slice_at_offset("aä", 2), "");
    assert_eq!(slice_at_offset("aä", 99), "");
}

#[test]
fn following_the_offsets_reads_the_whole_text() {
    let md = "one\n\ntwö two\n\n\n\nthree three 三\n\nfour".repeat(20);
    for limit in [1usize, 2, 5, 37, 10_000] {
        let mut read = String::new();
        let mut offset: usize = 0;
        loop {
            let c = chunk(&md, offset, limit);
            assert!(c.markdown.chars().count() <= limit);
            read.push_str(&c.markdown);
            match c.next_offset {
                Some(n) => {
                    assert!(n > offset);
                    offset = n;
                }
                None => break,
            }
        }
        assert_eq!(read, md);
    }
}
