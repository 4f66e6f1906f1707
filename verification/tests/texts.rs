use scour::text::{
    collapse, count_in, first_distinct, has, has_prefix, has_suffix, is_space, is_space_byte, join,
    show, split, split_words, to_chars, trim,
};

#[test]
fn white_space_is_that_of_the_standard() {
    for n in 0..=0x10ffffu32 {
        if let Some(c) = char::from_u32(n) {
            assert_eq!(is_space(c), c.is_whitespace(), "{n:x}");
        }
    }
    for b in 0..=255u8 {
        assert_eq!(is_space_byte(b), b.is_ascii_whitespace());
    }
}

#[test]
fn trimming_and_words() {
    for s in ["", " ", " a b\t\u{3000}c ", "x", "\n\nab\n"] {
        assert_eq!(trim(s), s.trim());
        let words: Vec<String> = s.split_whitespace().map(|w| w.to_string()).collect();
        assert_eq!(split_words(s), words);
        assert_eq!(collapse(s), words.join(" "));
        assert_eq!(join(&words, "--"), words.join("--"));
    }
}

#[test]
fn splitting_and_searching() {
    for (s, p) in [("", "x"), ("axbxc", "x"), ("aaa", "aa"), ("\n\n\n", "\n\n"), ("abc", "abcd"), ("äöä", "ä")] {
        let parts: Vec<String> = s.split(p).map(|w| w.to_string()).collect();
        assert_eq!(split(s, p), parts);
        assert_eq!(has(s, p), s.contains(p));
        assert_eq!(has_prefix(s, p), s.starts_with(p));
        assert_eq!(has_suffix(s, p), s.ends_with(p));
        assert_eq!(count_in(&to_chars(s), &to_chars(p)), s.matches(p).count());
    }
}

#[test]
fn numbers_and_lists() {
    for n in [0usize, 7, 10, 109, 40_000, usize::MAX] {
        assert_eq!(show(n), n.to_string());
    }
    let list: Vec<String> = ["a", "b", "a", "c"].iter().map(|s| s.to_string()).collect();
    assert_eq!(first_distinct(&list, 2), vec!["a".to_string(), "b".to_string()]);
    assert_eq!(first_distinct(&list, 9).len(), 3);
}
