use scour::focus::{focus_filter, focus_terms, is_relevant, mark, measure, narrow, survey, Mark};

/// The score of each paragraph: term frequency times inverse paragraph frequency, raised for
/// headings and for the first paragraphs.
fn scores(markdown: &str, query: &str) -> Vec<u32> {
    let s = survey(markdown, query);
    let n = s.passages.len() as f32;
    s.passages
        .iter()
        .map(|p| {
            let mut score: f32 = 0.0;
            for (count, df) in p.counts.iter().zip(&s.spread) {
                let tf = *count as f32;
                if tf == 0.0 {
                    continue;
                }
                let df = *df as f32;
                let idf = ((n - df + 0.5) / (df + 0.5) + 1.0).ln().max(0.1);
                score += tf * idf;
            }
            score *= match p.mark {
                Mark::Heading => 2.0,
                Mark::Strong => 1.5,
                Mark::Plain => 1.0,
            };
            if p.early {
                score *= 1.1;
            }
            score.to_bits()
        })
        .collect()
}

fn filter(markdown: &str, query: &str, keep: usize) -> String {
    focus_filter(markdown, query, keep, &scores(markdown, query))
}

#[test]
fn focus_keeps_relevant_paras_in_order() {
    let md = "about cats and yarn\n\nunrelated filler text\n\nmore cats sleeping";
    let out = filter(md, "cats", 40);
    assert!(out.contains("cats and yarn") && out.contains("more cats"));
    assert!(!out.contains("unrelated filler"));
    assert!(out.find("yarn").unwrap() < out.find("sleeping").unwrap());
    assert_eq!(filter(md, "zebra", 40), md);
}

#[test]
fn focus_bm25_heading_boost() {
    let md = "# Cats overview\n\nabout dogs\n\n## Cats sleeping habits\n\nmore dogs";
    let out = filter(md, "cats", 2);
    assert!(out.contains("Cats overview") || out.contains("Cats sleeping"));
}

#[test]
fn the_best_paragraphs_win() {
    let md = "cats\n\ncats cats\n\ncats cats cats\n\ndogs\n\n# cats cats";
    // The heading counts double, so it beats the third paragraph.
    assert_eq!(filter(md, "cats", 1), "# cats cats");
    assert_eq!(filter(md, "cats", 2), "cats cats cats\n\n# cats cats");
    assert_eq!(filter(md, "cats", 40), "cats\n\ncats cats\n\ncats cats cats\n\n# cats cats");
    assert_eq!(filter(md, "cats", 0), "");
}

#[test]
fn filtering_again_gives_the_same() {
    let md = "cats\n\n\ncats\n\ndogs\n\n\n\ncats cats\n\n cats\n";
    for keep in [0usize, 1, 2, 3, 40] {
        let once = filter(md, "cats", keep);
        assert_eq!(filter(&once, "cats", keep), once);
        assert_eq!(focus_filter(&once, "cats", keep, &[9, 1, 5]), once);
        let kept = if once.is_empty() { 0 } else { once.split("\n\n").count() };
        assert_eq!(kept, keep.min(4), "as many as asked for, or all that are relevant");
    }
}

#[test]
fn equal_scores_keep_the_first() {
    let md = "one cat\n\ntwo cat\n\nthree cat\n\nfour cat";
    assert_eq!(focus_filter(md, "cat", 2, &[5, 5, 5, 5]), "one cat\n\ntwo cat");
    assert_eq!(focus_filter(md, "cat", 2, &[5, 5, 6, 5]), "one cat\n\nthree cat");
    // A paragraph without a score has the lowest.
    assert_eq!(focus_filter(md, "cat", 1, &[0, 1]), "two cat");
}

#[test]
fn terms_are_bare_and_long_enough() {
    assert_eq!(
        focus_terms(" (Rust), a to \"ÉTÉ\" of-it ... "),
        vec!["rust".to_string(), "été".to_string(), "of-it".to_string()]
    );
    assert!(focus_terms("a an").is_empty());
    assert_eq!(filter("some text", "a an", 1), "some text");
}

#[test]
fn counts_are_taken() {
    let s = survey("cats cats\n\n **cats** dogs\n\n\n\n # x\n\ncats", "Cats dogs");
    assert_eq!(s.spread, vec![3, 1]);
    let counts: Vec<Vec<usize>> = s.passages.iter().map(|p| p.counts.clone()).collect();
    assert_eq!(counts, vec![vec![2, 0], vec![1, 1], vec![0, 0], vec![0, 0], vec![1, 0]]);
    let marks: Vec<Mark> = s.passages.iter().map(|p| p.mark).collect();
    assert_eq!(
        marks,
        vec![Mark::Plain, Mark::Strong, Mark::Plain, Mark::Heading, Mark::Plain]
    );
    let early: Vec<bool> = s.passages.iter().map(|p| p.early).collect();
    assert_eq!(early, vec![true, true, true, false, false]);
    assert_eq!(mark("  ## x"), Mark::Heading);
    assert_eq!(mark("x # y"), Mark::Plain);
}

#[test]
fn narrowing_goes_by_the_given_forms() {
    let terms = vec!["yes".to_string()];
    let lowers = vec!["no".to_string(), "yes".to_string()];
    assert_eq!(narrow("A\n\nB", &lowers, &terms, &[1, 1], 9), "B");
    assert!(is_relevant("oh yes", &terms) && !is_relevant("YES", &terms));
    let paras = vec!["A".to_string(), "B".to_string()];
    let s = measure(&paras, &lowers, &terms);
    assert_eq!(s.spread, vec![1]);
    assert_eq!(s.passages[1].counts, vec![1]);
}

#[test]
fn bits_order_scores_as_numbers() {
    let mut last: f32 = 0.0;
    for i in 1..2000u32 {
        let next = i as f32 * 0.37;
        assert!(next.to_bits() > last.to_bits());
        last = next;
    }
    assert_eq!(0.6f32.to_bits(), 0x3f19_999a);
    assert_eq!(0.2f32.to_bits(), 0x3e4c_cccd);
}
