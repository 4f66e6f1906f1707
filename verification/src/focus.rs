//! Narrowing a text to the paragraphs that are about a query.
//!
//! A paragraph is relevant if it holds one of the terms of the query. The best of the relevant
//! paragraphs are kept, in the order in which they stand in the text. How good a paragraph is
//! follows from the counts that [`survey`] takes; the score itself is a single-precision
//! number that the caller computes from them, handed back by its bits, which order
//! non-negative numbers as the numbers themselves.

use crate::bindings::unicode;
use crate::text;
use vstd::prelude::*;
use vstd::utf8::*;

verus! {

// ── Terms ───────────────────────────────────────────────────────────────────

/// A word without the characters at its start that are neither letters nor digits.
pub open spec fn bare_start(s: Seq<char>) -> Seq<char>
    decreases s.len(),
{
    if s.len() > 0 && !unicode::alphanumeric(s[0]) {
        bare_start(s.drop_first())
    } else {
        s
    }
}

/// A word without the characters at its end that are neither letters nor digits.
pub open spec fn bare_end(s: Seq<char>) -> Seq<char>
    decreases s.len(),
{
    if s.len() > 0 && !unicode::alphanumeric(s.last()) {
        bare_end(s.drop_last())
    } else {
        s
    }
}

/// The term that a word of a query stands for, if it is long enough to count.
pub open spec fn term_of(word: Seq<char>) -> Option<Seq<char>> {
    let t = unicode::lowercase(bare_end(bare_start(word)));
    if text::byte_len(t) > 2 {
        Some(t)
    } else {
        None
    }
}

/// The terms of a list of words.
pub open spec fn terms_in(words: Seq<Seq<char>>) -> Seq<Seq<char>>
    decreases words.len(),
{
    if words.len() == 0 {
        seq![]
    } else {
        match term_of(words.last()) {
            Some(t) => terms_in(words.drop_last()).push(t),
            None => terms_in(words.drop_last()),
        }
    }
}

/// The terms of a query.
pub open spec fn terms_of(query: Seq<char>) -> Seq<Seq<char>> {
    terms_in(text::words(query))
}

/// A word without what surrounds its letters and digits.
fn bare(word: &str) -> (r: String)
    ensures
        r@ == bare_end(bare_start(word@)),
{
    let c = text::to_chars(word);
    let mut from: usize = 0;
    assert(c@.skip(0) == c@);
    while from < c.len() && !c[from].is_alphanumeric()
        invariant
            from <= c@.len(),
            bare_start(c@) == bare_start(c@.skip(from as int)),
        decreases c@.len() - from,
    {
        assert(c@.skip(from as int).drop_first() == c@.skip(from + 1));
        from += 1;
    }
    let mut to: usize = c.len();
    assert(c@.subrange(from as int, to as int) == c@.skip(from as int));
    while from < to && !c[to - 1].is_alphanumeric()
        invariant
            from <= to <= c@.len(),
            bare_end(bare_start(c@)) == bare_end(c@.subrange(from as int, to as int)),
        decreases to,
    {
        assert(c@.subrange(from as int, to as int).drop_last() == c@.subrange(
            from as int,
            to - 1,
        ));
        to -= 1;
    }
    text::from_chars(&c, from, to)
}

/// The terms of a query: its words in lower case, without what surrounds their letters and
/// digits, and without the short ones.
pub fn focus_terms(query: &str) -> (r: Vec<String>)
    ensures
        text::views(r@) == terms_of(query@),
{
    let words = text::split_words(query);
    let ghost all = text::views(words@);
    let mut r: Vec<String> = Vec::new();
    let mut i: usize = 0;
    assert(all.take(0) == Seq::<Seq<char>>::empty());
    while i < words.len()
        invariant
            i <= words@.len(),
            all == text::views(words@),
            text::views(r@) == terms_in(all.take(i as int)),
        decreases words@.len() - i,
    {
        assert(all.take(i + 1).drop_last() == all.take(i as int));
        let ghost before = text::views(r@);
        let t = unicode::to_lowercase(bare(words[i].as_str()).as_str());
        if text::len(t.as_str()) > 2 {
            r.push(t);
            assert(text::views(r@) == before.push(t@));
        }
        i += 1;
    }
    assert(all.take(i as int) == all);
    r
}

// ── Relevance ───────────────────────────────────────────────────────────────

/// The lower-cased paragraph holds one of the terms.
pub open spec fn relevant(lower: Seq<char>, terms: Seq<Seq<char>>) -> bool {
    exists|k: int| 0 <= k < terms.len() && text::contains(lower, #[trigger] terms[k])
}

/// Whether a lower-cased paragraph holds one of the terms.
pub fn is_relevant(lower: &str, terms: &[String]) -> (r: bool)
    ensures
        r == relevant(lower@, text::views(terms@)),
{
    let c = text::to_chars(lower);
    let ghost t = text::views(terms@);
    let mut k: usize = 0;
    while k < terms.len()
        invariant
            k <= terms@.len(),
            c@ == lower@,
            t == text::views(terms@),
            forall|j: int| 0 <= j < k ==> !text::contains(lower@, #[trigger] t[j]),
        decreases terms@.len() - k,
    {
        assert(t[k as int] == terms@[k as int]@);
        if text::found_in(&c, &text::to_chars(terms[k].as_str())) {
            return true;
        }
        k += 1;
    }
    false
}

/// The score of a paragraph; one without a score has the lowest.
pub open spec fn score_at(scores: Seq<u32>, i: int) -> u32 {
    if 0 <= i < scores.len() {
        scores[i]
    } else {
        0
    }
}

/// Paragraph `j` goes before paragraph `i`: its score is higher, or it is equal and `j` comes
/// first in the text.
pub open spec fn beats(scores: Seq<u32>, j: int, i: int) -> bool {
    score_at(scores, j) > score_at(scores, i) || (score_at(scores, j) == score_at(scores, i) && j
        < i)
}

/// How many of the first `n` paragraphs are relevant and go before paragraph `i`.
pub open spec fn rank(
    lowers: Seq<Seq<char>>,
    terms: Seq<Seq<char>>,
    scores: Seq<u32>,
    i: int,
    n: int,
) -> nat
    decreases n,
{
    if n <= 0 {
        0
    } else {
        rank(lowers, terms, scores, i, n - 1) + if relevant(lowers[n - 1], terms) && beats(
            scores,
            n - 1,
            i,
        ) {
            1nat
        } else {
            0
        }
    }
}

/// Paragraph `i` is relevant and one of the best `keep`.
pub open spec fn kept(
    lowers: Seq<Seq<char>>,
    terms: Seq<Seq<char>>,
    scores: Seq<u32>,
    keep: nat,
    i: int,
) -> bool {
    relevant(lowers[i], terms) && rank(lowers, terms, scores, i, lowers.len() as int) < keep
}

/// Those of the first `n` paragraphs that are kept, in order.
pub open spec fn picked(
    paras: Seq<Seq<char>>,
    lowers: Seq<Seq<char>>,
    terms: Seq<Seq<char>>,
    scores: Seq<u32>,
    keep: nat,
    n: int,
) -> Seq<Seq<char>>
    decreases n,
{
    if n <= 0 {
        seq![]
    } else {
        let rest = picked(paras, lowers, terms, scores, keep, n - 1);
        if kept(lowers, terms, scores, keep, n - 1) {
            rest.push(paras[n - 1])
        } else {
            rest
        }
    }
}

/// Some paragraph is relevant.
pub open spec fn any_relevant(lowers: Seq<Seq<char>>, terms: Seq<Seq<char>>) -> bool {
    exists|i: int| 0 <= i < lowers.len() && relevant(#[trigger] lowers[i], terms)
}

/// The best `keep` of the relevant paragraphs of a text, in its order, given the lower-cased
/// paragraphs. A text without a relevant paragraph stays as it is.
pub open spec fn narrowed(
    md: Seq<char>,
    lowers: Seq<Seq<char>>,
    terms: Seq<Seq<char>>,
    scores: Seq<u32>,
    keep: nat,
) -> Seq<char> {
    if any_relevant(lowers, terms) {
        text::joined(
            picked(text::pieces(md, "\n\n"@), lowers, terms, scores, keep, lowers.len() as int),
            "\n\n"@,
        )
    } else {
        md
    }
}

/// The lower-cased forms of a list of texts.
pub open spec fn lowercased(list: Seq<Seq<char>>) -> Seq<Seq<char>> {
    Seq::new(list.len(), |i: int| unicode::lowercase(list[i]))
}

/// The best `keep` of the relevant paragraphs of a text, in its order.
pub open spec fn focused(md: Seq<char>, query: Seq<char>, scores: Seq<u32>, keep: nat) -> Seq<
    char,
> {
    narrowed(md, lowercased(text::pieces(md, "\n\n"@)), terms_of(query), scores, keep)
}

/// The score of a paragraph; one without a score has the lowest.
fn score_of(scores: &[u32], i: usize) -> (r: u32)
    ensures
        r == score_at(scores@, i as int),
{
    if i < scores.len() {
        scores[i]
    } else {
        0
    }
}

/// The best `keep` of the relevant paragraphs of a text, in its order, given the lower-cased
/// paragraphs and the terms.
pub fn narrow(
    markdown: &str,
    lowers: &[String],
    terms: &[String],
    scores: &[u32],
    keep: usize,
) -> (r: String)
    requires
        lowers@.len() == text::pieces(markdown@, "\n\n"@).len(),
    ensures
        r@ == narrowed(
            markdown@,
            text::views(lowers@),
            text::views(terms@),
            scores@,
            keep as nat,
        ),
{
    proof {
        reveal_strlit("\n\n");
    }
    let paras = text::split(markdown, "\n\n");
    let ghost p = text::views(paras@);
    let ghost l = text::views(lowers@);
    let ghost t = text::views(terms@);
    let count: usize = lowers.len();
    assert(p.len() == paras@.len());
    let mut hits: Vec<bool> = Vec::new();
    let mut some = false;
    let mut i: usize = 0;
    while i < count
        invariant
            i <= count,
            count == lowers@.len(),
            l == text::views(lowers@),
            t == text::views(terms@),
            hits@.len() == i,
            forall|j: int| 0 <= j < i ==> hits@[j] == relevant(#[trigger] l[j], t),
            some == exists|j: int| 0 <= j < i && relevant(#[trigger] l[j], t),
        decreases count - i,
    {
        assert(l[i as int] == lowers@[i as int]@);
        let hit = is_relevant(lowers[i].as_str(), terms);
        hits.push(hit);
        some = some || hit;
        i += 1;
    }
    if !some {
        return markdown.to_owned();
    }
    let mut chosen: Vec<String> = Vec::new();
    let mut i: usize = 0;
    while i < count
        invariant
            i <= count,
            count == lowers@.len(),
            count == paras@.len(),
            hits@.len() == count,
            p == text::views(paras@),
            l == text::views(lowers@),
            t == text::views(terms@),
            forall|j: int| 0 <= j < count ==> hits@[j] == relevant(#[trigger] l[j], t),
            text::views(chosen@) == picked(p, l, t, scores@, keep as nat, i as int),
        decreases count - i,
    {
        assert(hits@[i as int] == relevant(l[i as int], t));
        if hits[i] {
            let mut better: usize = 0;
            let mut j: usize = 0;
            while j < count
                invariant
                    j <= count,
                    better <= j,
                    i < count,
                    count == lowers@.len(),
                    hits@.len() == count,
                    l == text::views(lowers@),
                    forall|j: int| 0 <= j < count ==> hits@[j] == relevant(#[trigger] l[j], t),
                    better == rank(l, t, scores@, i as int, j as int),
                decreases count - j,
            {
                assert(hits@[j as int] == relevant(l[j as int], t));
                let a = score_of(scores, j);
                let b = score_of(scores, i);
                if hits[j] && (a > b || (a == b && j < i)) {
                    better += 1;
                }
                j += 1;
            }
            if better < keep {
                let ghost before = text::views(chosen@);
                chosen.push(paras[i].clone());
                assert(text::views(chosen@) == before.push(p[i as int]));
            }
        }
        i += 1;
    }
    text::join(&chosen, "\n\n")
}

/// The lower-cased forms of a list of texts.
fn lower_all(list: &[String]) -> (r: Vec<String>)
    ensures
        text::views(r@) == lowercased(text::views(list@)),
{
    let mut r: Vec<String> = Vec::new();
    let ghost all = text::views(list@);
    let mut i: usize = 0;
    while i < list.len()
        invariant
            i <= list@.len(),
            all == text::views(list@),
            text::views(r@) == lowercased(all).take(i as int),
        decreases list@.len() - i,
    {
        let ghost before = text::views(r@);
        r.push(unicode::to_lowercase(list[i].as_str()));
        assert(text::views(r@) == before.push(lowercased(all)[i as int]));
        i += 1;
    }
    r
}

/// The best `keep` of the paragraphs that are about the query, in the order of the text. A text
/// in which nothing is about it stays as it is.
pub fn focus_filter(markdown: &str, query: &str, keep: usize, scores: &[u32]) -> (r: String)
    ensures
        r@ == focused(markdown@, query@, scores@, keep as nat),
        !any_relevant(lowercased(text::pieces(markdown@, "\n\n"@)), terms_of(query@)) ==> r@
            == markdown@,
{
    proof {
        reveal_strlit("\n\n");
    }
    let terms = focus_terms(query);
    let lowers = lower_all(&text::split(markdown, "\n\n"));
    assert(lowers@.len() == text::views(lowers@).len());
    narrow(markdown, &lowers, &terms, scores, keep)
}

// ── Counting ────────────────────────────────────────────────────────────────

/// How a paragraph is marked off from plain text.
#[derive(Debug, Clone, Copy, PartialEq, Eq, Structural)]
pub enum Mark {
    /// It begins with a number sign.
    Heading,
    /// It begins with two asterisks.
    Strong,
    Plain,
}

/// How a paragraph is marked off from plain text.
pub open spec fn mark_of(para: Seq<char>) -> Mark {
    let t = text::trim_start(para);
    if text::starts_with(t, "#"@) {
        Mark::Heading
    } else if text::starts_with(t, "**"@) {
        Mark::Strong
    } else {
        Mark::Plain
    }
}

/// How a paragraph is marked off from plain text.
pub fn mark(para: &str) -> (r: Mark)
    ensures
        r == mark_of(para@),
{
    let c = text::to_chars(para);
    let from = text::skip_space(&c, 0);
    assert(c@.skip(0) == para@);
    let t = text::from_chars(&c, from, c.len());
    assert(t@ == c@.skip(from as int));
    if text::has_prefix(t.as_str(), "#") {
        Mark::Heading
    } else if text::has_prefix(t.as_str(), "**") {
        Mark::Strong
    } else {
        Mark::Plain
    }
}

/// What the score of a paragraph is made of.
#[derive(Debug)]
pub struct Passage {
    /// How many times each term stands in the paragraph.
    pub counts: Vec<usize>,
    pub mark: Mark,
    /// The paragraph is one of the first three.
    pub early: bool,
}

/// What the scores of the paragraphs of a text are made of.
#[derive(Debug)]
pub struct Survey {
    /// In how many paragraphs each term stands.
    pub spread: Vec<usize>,
    /// The paragraphs, in order.
    pub passages: Vec<Passage>,
}

/// In how many texts of a list a term stands.
pub open spec fn spread_of(lowers: Seq<Seq<char>>, term: Seq<char>) -> nat
    decreases lowers.len(),
{
    if lowers.len() == 0 {
        0
    } else {
        spread_of(lowers.drop_last(), term) + if text::contains(lowers.last(), term) {
            1nat
        } else {
            0
        }
    }
}

impl Passage {
    /// The passage tells the truth about a paragraph.
    pub open spec fn describes(
        &self,
        para: Seq<char>,
        lower: Seq<char>,
        terms: Seq<Seq<char>>,
        i: int,
    ) -> bool {
        &&& self.counts@.len() == terms.len()
        &&& forall|k: int|
            0 <= k < terms.len() ==> self.counts@[k] == text::count(lower, #[trigger] terms[k])
        &&& self.mark == mark_of(para)
        &&& self.early == (i < 3)
    }
}

impl Survey {
    /// The survey tells the truth about the paragraphs of a text.
    pub open spec fn describes(
        &self,
        paras: Seq<Seq<char>>,
        lowers: Seq<Seq<char>>,
        terms: Seq<Seq<char>>,
    ) -> bool {
        &&& self.spread@.len() == terms.len()
        &&& forall|k: int|
            0 <= k < terms.len() ==> self.spread@[k] == spread_of(lowers, #[trigger] terms[k])
        &&& self.passages@.len() == paras.len()
        &&& forall|i: int|
            0 <= i < paras.len() ==> (#[trigger] self.passages@[i]).describes(
                paras[i],
                lowers[i],
                terms,
                i,
            )
    }
}

/// Counts each of the terms in a lower-cased paragraph.
fn count_terms(lower: &str, terms: &[String]) -> (r: Vec<usize>)
    requires
        forall|k: int| 0 <= k < terms@.len() ==> (#[trigger] text::views(terms@)[k]).len() > 0,
    ensures
        r@.len() == terms@.len(),
        forall|k: int|
            0 <= k < terms@.len() ==> r@[k] == text::count(
                lower@,
                #[trigger] text::views(terms@)[k],
            ),
{
    let c = text::to_chars(lower);
    let ghost t = text::views(terms@);
    let mut r: Vec<usize> = Vec::new();
    let mut k: usize = 0;
    while k < terms.len()
        invariant
            k <= terms@.len(),
            c@ == lower@,
            t == text::views(terms@),
            forall|j: int| 0 <= j < terms@.len() ==> (#[trigger] t[j]).len() > 0,
            r@.len() == k,
            forall|j: int| 0 <= j < k ==> r@[j] == text::count(lower@, #[trigger] t[j]),
        decreases terms@.len() - k,
    {
        assert(t[k as int] == terms@[k as int]@);
        r.push(text::count_in(&c, &text::to_chars(terms[k].as_str())));
        k += 1;
    }
    r
}

/// Counts the texts of a list in which a term stands.
fn count_spread(lowers: &[String], term: &str) -> (r: usize)
    ensures
        r == spread_of(text::views(lowers@), term@),
{
    let t = text::to_chars(term);
    let ghost l = text::views(lowers@);
    let mut n: usize = 0;
    let mut i: usize = 0;
    let count: usize = lowers.len();
    while i < count
        invariant
            i <= count,
            count == lowers@.len(),
            t@ == term@,
            l == text::views(lowers@),
            n <= i,
            n == spread_of(l.take(i as int), term@),
        decreases count - i,
    {
        assert(l.take(i + 1).drop_last() == l.take(i as int));
        assert(l.take(i + 1).last() == lowers@[i as int]@);
        if text::found_in(&text::to_chars(lowers[i].as_str()), &t) {
            n += 1;
        }
        i += 1;
    }
    assert(l.take(i as int) == l);
    n
}

/// Takes the counts that scores are made of, given the paragraphs, their lower-cased forms and
/// the terms, none of them empty.
pub fn measure(paras: &[String], lowers: &[String], terms: &[String]) -> (r: Survey)
    requires
        lowers@.len() == paras@.len(),
        forall|k: int| 0 <= k < terms@.len() ==> (#[trigger] text::views(terms@)[k]).len() > 0,
    ensures
        r.describes(text::views(paras@), text::views(lowers@), text::views(terms@)),
{
    let ghost p = text::views(paras@);
    let ghost l = text::views(lowers@);
    let ghost t = text::views(terms@);
    let mut spread: Vec<usize> = Vec::new();
    let mut k: usize = 0;
    while k < terms.len()
        invariant
            k <= terms@.len(),
            l == text::views(lowers@),
            t == text::views(terms@),
            spread@.len() == k,
            forall|j: int| 0 <= j < k ==> spread@[j] == spread_of(l, #[trigger] t[j]),
        decreases terms@.len() - k,
    {
        assert(t[k as int] == terms@[k as int]@);
        spread.push(count_spread(lowers, terms[k].as_str()));
        k += 1;
    }
    let mut passages: Vec<Passage> = Vec::new();
    let mut i: usize = 0;
    while i < paras.len()
        invariant
            i <= paras@.len(),
            lowers@.len() == paras@.len(),
            forall|k: int| 0 <= k < terms@.len() ==> (#[trigger] text::views(terms@)[k]).len() > 0,
            p == text::views(paras@),
            l == text::views(lowers@),
            t == text::views(terms@),
            passages@.len() == i,
            forall|j: int|
                0 <= j < i ==> (#[trigger] passages@[j]).describes(p[j], l[j], t, j),
        decreases paras@.len() - i,
    {
        assert(p[i as int] == paras@[i as int]@);
        assert(l[i as int] == lowers@[i as int]@);
        let counts = count_terms(lowers[i].as_str(), terms);
        passages.push(Passage { counts, mark: mark(paras[i].as_str()), early: i < 3 });
        i += 1;
    }
    Survey { spread, passages }
}

/// No term is empty.
proof fn lemma_terms(words: Seq<Seq<char>>)
    ensures
        forall|k: int| 0 <= k < terms_in(words).len() ==> (#[trigger] terms_in(words)[k]).len() > 0,
    decreases words.len(),
{
    if words.len() > 0 {
        lemma_terms(words.drop_last());
        let all = terms_in(words);
        let rest = terms_in(words.drop_last());
        assert forall|k: int| 0 <= k < all.len() implies (#[trigger] all[k]).len() > 0 by {
            if k < rest.len() {
                assert(all[k] == rest[k]);
            } else if all[k].len() == 0 {
                assert(all[k] == Seq::<char>::empty());
                assert(encode_utf8(all[k]).len() == 0);
            }
        }
    }
}

/// Takes the counts that the scores of the paragraphs of a text are made of.
pub fn survey(markdown: &str, query: &str) -> (r: Survey)
    ensures
        ({
            let paras = text::pieces(markdown@, "\n\n"@);
            r.describes(paras, lowercased(paras), terms_of(query@))
        }),
{
    proof {
        reveal_strlit("\n\n");
        lemma_terms(text::words(query@));
    }
    let terms = focus_terms(query);
    let paras = text::split(markdown, "\n\n");
    let lowers = lower_all(&paras);
    assert(lowers@.len() == text::views(lowers@).len());
    assert(paras@.len() == text::views(paras@).len());
    assert(terms@.len() == text::views(terms@).len());
    measure(&paras, &lowers, &terms)
}

// ── Laws ────────────────────────────────────────────────────────────────────

/// What goes before has the smaller rank.
proof fn lemma_rank_grows(
    lowers: Seq<Seq<char>>,
    terms: Seq<Seq<char>>,
    scores: Seq<u32>,
    j: int,
    i: int,
    n: int,
)
    requires
        0 <= n,
        0 <= j,
        0 <= i,
        relevant(lowers[j], terms),
        beats(scores, j, i),
    ensures
        rank(lowers, terms, scores, j, n) + (if j < n {
            1int
        } else {
            0
        }) <= rank(lowers, terms, scores, i, n),
    decreases n,
{
    if n > 0 {
        lemma_rank_grows(lowers, terms, scores, j, i, n - 1);
    }
}

/// What is kept goes before everything relevant that is not.
pub proof fn the_best_are_kept(
    lowers: Seq<Seq<char>>,
    terms: Seq<Seq<char>>,
    scores: Seq<u32>,
    keep: nat,
    i: int,
    j: int,
)
    requires
        0 <= i < lowers.len(),
        0 <= j < lowers.len(),
        kept(lowers, terms, scores, keep, i),
        relevant(lowers[j], terms),
        !kept(lowers, terms, scores, keep, j),
    ensures
        beats(scores, i, j),
{
    if beats(scores, j, i) {
        lemma_rank_grows(lowers, terms, scores, j, i, lowers.len() as int);
    }
}

/// How many of the first `n` paragraphs are relevant.
pub open spec fn relevant_count(lowers: Seq<Seq<char>>, terms: Seq<Seq<char>>, n: int) -> nat
    decreases n,
{
    if n <= 0 {
        0
    } else {
        relevant_count(lowers, terms, n - 1) + if relevant(lowers[n - 1], terms) {
            1nat
        } else {
            0
        }
    }
}

proof fn lemma_rank_bound(
    lowers: Seq<Seq<char>>,
    terms: Seq<Seq<char>>,
    scores: Seq<u32>,
    i: int,
    n: int,
)
    requires
        0 <= n,
    ensures
        rank(lowers, terms, scores, i, n) <= relevant_count(lowers, terms, n),
        0 <= i < n && relevant(lowers[i], terms) ==> rank(lowers, terms, scores, i, n)
            < relevant_count(lowers, terms, n),
    decreases n,
{
    if n > 0 {
        lemma_rank_bound(lowers, terms, scores, i, n - 1);
    }
}

/// Where there is room for all that are relevant, every relevant paragraph is kept.
pub proof fn all_relevant_are_kept_where_there_is_room(
    lowers: Seq<Seq<char>>,
    terms: Seq<Seq<char>>,
    scores: Seq<u32>,
    keep: nat,
    i: int,
)
    requires
        0 <= i < lowers.len(),
        relevant_count(lowers, terms, lowers.len() as int) <= keep,
    ensures
        kept(lowers, terms, scores, keep, i) <==> relevant(lowers[i], terms),
{
    lemma_rank_bound(lowers, terms, scores, i, lowers.len() as int);
}

/// The positions of those of the first `n` paragraphs that are kept.
pub open spec fn positions(
    lowers: Seq<Seq<char>>,
    terms: Seq<Seq<char>>,
    scores: Seq<u32>,
    keep: nat,
    n: int,
) -> Seq<int>
    decreases n,
{
    if n <= 0 {
        seq![]
    } else {
        let rest = positions(lowers, terms, scores, keep, n - 1);
        if kept(lowers, terms, scores, keep, n - 1) {
            rest.push(n - 1)
        } else {
            rest
        }
    }
}

/// What is kept are paragraphs of the text, each relevant and none of them twice, in the order
/// in which they stand there.
pub proof fn the_order_of_the_text_is_kept(
    paras: Seq<Seq<char>>,
    lowers: Seq<Seq<char>>,
    terms: Seq<Seq<char>>,
    scores: Seq<u32>,
    keep: nat,
    n: int,
)
    requires
        0 <= n,
    ensures
        ({
            let p = picked(paras, lowers, terms, scores, keep, n);
            let at = positions(lowers, terms, scores, keep, n);
            &&& p.len() == at.len()
            &&& forall|k: int|
                0 <= k < at.len() ==> {
                    &&& 0 <= #[trigger] at[k] < n
                    &&& p[k] == paras[at[k]]
                    &&& kept(lowers, terms, scores, keep, at[k])
                }
            &&& forall|k: int, m: int| 0 <= k < m < at.len() ==> #[trigger] at[k] < #[trigger] at[m]
        }),
    decreases n,
{
    if n > 0 {
        the_order_of_the_text_is_kept(paras, lowers, terms, scores, keep, n - 1);
    }
}

/// Of what is kept, one goes behind all the others.
proof fn lemma_worst(
    lowers: Seq<Seq<char>>,
    terms: Seq<Seq<char>>,
    scores: Seq<u32>,
    keep: nat,
    n: int,
) -> (w: int)
    requires
        0 <= n,
        positions(lowers, terms, scores, keep, n).len() > 0,
    ensures
        0 <= w < n,
        kept(lowers, terms, scores, keep, w),
        forall|i: int|
            0 <= i < n && i != w && #[trigger] kept(lowers, terms, scores, keep, i) ==> beats(
                scores,
                i,
                w,
            ),
    decreases n,
{
    if kept(lowers, terms, scores, keep, n - 1) {
        if positions(lowers, terms, scores, keep, n - 1).len() > 0 {
            let w = lemma_worst(lowers, terms, scores, keep, n - 1);
            if beats(scores, w, n - 1) {
                n - 1
            } else {
                w
            }
        } else {
            lemma_none_kept(lowers, terms, scores, keep, n - 1);
            n - 1
        }
    } else {
        lemma_worst(lowers, terms, scores, keep, n - 1)
    }
}

proof fn lemma_none_kept(
    lowers: Seq<Seq<char>>,
    terms: Seq<Seq<char>>,
    scores: Seq<u32>,
    keep: nat,
    n: int,
)
    requires
        0 <= n,
        positions(lowers, terms, scores, keep, n).len() == 0,
    ensures
        forall|i: int| 0 <= i < n ==> !#[trigger] kept(lowers, terms, scores, keep, i),
    decreases n,
{
    if n > 0 {
        lemma_none_kept(lowers, terms, scores, keep, n - 1);
    }
}

proof fn lemma_others_count(
    lowers: Seq<Seq<char>>,
    terms: Seq<Seq<char>>,
    scores: Seq<u32>,
    keep: nat,
    w: int,
    n: int,
)
    requires
        0 <= n,
        forall|i: int|
            0 <= i < n && i != w && #[trigger] kept(lowers, terms, scores, keep, i) ==> beats(
                scores,
                i,
                w,
            ),
    ensures
        positions(lowers, terms, scores, keep, n).len() <= rank(lowers, terms, scores, w, n) + if 0
            <= w < n {
            1int
        } else {
            0
        },
    decreases n,
{
    if n > 0 {
        lemma_others_count(lowers, terms, scores, keep, w, n - 1);
    }
}

/// No more is kept than was asked for.
proof fn lemma_no_more(
    lowers: Seq<Seq<char>>,
    terms: Seq<Seq<char>>,
    scores: Seq<u32>,
    keep: nat,
)
    ensures
        positions(lowers, terms, scores, keep, lowers.len() as int).len() <= keep,
{
    let n = lowers.len() as int;
    if positions(lowers, terms, scores, keep, n).len() > 0 {
        let w = lemma_worst(lowers, terms, scores, keep, n);
        lemma_others_count(lowers, terms, scores, keep, w, n);
    }
}

/// Paragraph `i` is relevant and not one of the best `keep`.
pub open spec fn left_out(
    lowers: Seq<Seq<char>>,
    terms: Seq<Seq<char>>,
    scores: Seq<u32>,
    keep: nat,
    i: int,
) -> bool {
    relevant(lowers[i], terms) && !kept(lowers, terms, scores, keep, i)
}

/// What is kept is relevant; where as many are, nothing relevant is left out.
proof fn lemma_none_left(
    lowers: Seq<Seq<char>>,
    terms: Seq<Seq<char>>,
    scores: Seq<u32>,
    keep: nat,
    n: int,
)
    requires
        0 <= n,
    ensures
        positions(lowers, terms, scores, keep, n).len() <= relevant_count(lowers, terms, n),
        positions(lowers, terms, scores, keep, n).len() == relevant_count(lowers, terms, n)
            ==> forall|i: int|
            0 <= i < n ==> !#[trigger] left_out(lowers, terms, scores, keep, i),
    decreases n,
{
    if n > 0 {
        lemma_none_left(lowers, terms, scores, keep, n - 1);
    }
}

/// Of what is relevant and left out, one goes before all the others.
proof fn lemma_best_left(
    lowers: Seq<Seq<char>>,
    terms: Seq<Seq<char>>,
    scores: Seq<u32>,
    keep: nat,
    n: int,
) -> (b: int)
    requires
        0 <= n,
        positions(lowers, terms, scores, keep, n).len() < relevant_count(lowers, terms, n),
    ensures
        0 <= b < n,
        left_out(lowers, terms, scores, keep, b),
        forall|i: int|
            0 <= i < n && i != b && #[trigger] left_out(lowers, terms, scores, keep, i) ==> beats(
                scores,
                b,
                i,
            ),
    decreases n,
{
    if left_out(lowers, terms, scores, keep, n - 1) {
        lemma_none_left(lowers, terms, scores, keep, n - 1);
        if positions(lowers, terms, scores, keep, n - 1).len() < relevant_count(
            lowers,
            terms,
            n - 1,
        ) {
            let b = lemma_best_left(lowers, terms, scores, keep, n - 1);
            if beats(scores, b, n - 1) {
                b
            } else {
                n - 1
            }
        } else {
            n - 1
        }
    } else {
        lemma_best_left(lowers, terms, scores, keep, n - 1)
    }
}

/// Where everything relevant that goes before `b` is kept, its rank is no more than what is
/// kept.
proof fn lemma_ahead_kept(
    lowers: Seq<Seq<char>>,
    terms: Seq<Seq<char>>,
    scores: Seq<u32>,
    keep: nat,
    b: int,
    n: int,
)
    requires
        0 <= n,
        forall|i: int|
            0 <= i < n && beats(scores, i, b) ==> !#[trigger] left_out(
                lowers,
                terms,
                scores,
                keep,
                i,
            ),
    ensures
        rank(lowers, terms, scores, b, n) <= positions(lowers, terms, scores, keep, n).len(),
    decreases n,
{
    if n > 0 {
        lemma_ahead_kept(lowers, terms, scores, keep, b, n - 1);
        assert(beats(scores, n - 1, b) ==> !left_out(lowers, terms, scores, keep, n - 1));
    }
}

/// Exactly as many paragraphs are kept as were asked for, or all that are relevant where those
/// are fewer.
pub proof fn as_many_are_kept_as_asked(
    paras: Seq<Seq<char>>,
    lowers: Seq<Seq<char>>,
    terms: Seq<Seq<char>>,
    scores: Seq<u32>,
    keep: nat,
)
    ensures
        ({
            let n = lowers.len() as int;
            let all = relevant_count(lowers, terms, n);
            picked(paras, lowers, terms, scores, keep, n).len() == if all < keep {
                all
            } else {
                keep
            }
        }),
{
    let n = lowers.len() as int;
    the_order_of_the_text_is_kept(paras, lowers, terms, scores, keep, n);
    lemma_no_more(lowers, terms, scores, keep);
    lemma_none_left(lowers, terms, scores, keep, n);
    if positions(lowers, terms, scores, keep, n).len() < relevant_count(lowers, terms, n) {
        let b = lemma_best_left(lowers, terms, scores, keep, n);
        assert forall|i: int| 0 <= i < n && beats(scores, i, b) implies !#[trigger] left_out(
            lowers,
            terms,
            scores,
            keep,
            i,
        ) by {
            if i != b && left_out(lowers, terms, scores, keep, i) {
                assert(beats(scores, b, i));
            }
        }
        lemma_ahead_kept(lowers, terms, scores, keep, b, n);
    }
}

/// Where every paragraph is relevant and there is room for all, all are kept.
proof fn lemma_all_picked(
    paras: Seq<Seq<char>>,
    lowers: Seq<Seq<char>>,
    terms: Seq<Seq<char>>,
    scores: Seq<u32>,
    keep: nat,
    n: int,
)
    requires
        paras.len() == lowers.len(),
        lowers.len() <= keep,
        0 <= n <= lowers.len(),
        forall|i: int| 0 <= i < lowers.len() ==> relevant(#[trigger] lowers[i], terms),
    ensures
        picked(paras, lowers, terms, scores, keep, n) == paras.take(n),
    decreases n,
{
    if n > 0 {
        lemma_all_picked(paras, lowers, terms, scores, keep, n - 1);
        lemma_relevant_count(lowers, terms, lowers.len() as int);
        assert(relevant(lowers[n - 1], terms));
        all_relevant_are_kept_where_there_is_room(lowers, terms, scores, keep, n - 1);
        assert(paras.take(n) =~= paras.take(n - 1).push(paras[n - 1]));
    }
}

proof fn lemma_relevant_count(lowers: Seq<Seq<char>>, terms: Seq<Seq<char>>, n: int)
    requires
        0 <= n,
    ensures
        relevant_count(lowers, terms, n) <= n,
        forall|i: int|
            0 <= i < n && relevant(#[trigger] lowers[i], terms) ==> relevant_count(
                lowers,
                terms,
                n,
            ) > 0,
    decreases n,
{
    if n > 0 {
        lemma_relevant_count(lowers, terms, n - 1);
    }
}

/// Filtering a text that was filtered for the same query again changes nothing, whatever the
/// scores are.
pub proof fn filtering_again_changes_nothing(
    md: Seq<char>,
    query: Seq<char>,
    scores: Seq<u32>,
    again: Seq<u32>,
    keep: nat,
)
    ensures
        focused(focused(md, query, scores, keep), query, again, keep) == focused(
            md,
            query,
            scores,
            keep,
        ),
{
    let terms = terms_of(query);
    let paras = text::pieces(md, "\n\n"@);
    let lowers = lowercased(paras);
    let n = lowers.len() as int;
    if any_relevant(lowers, terms) {
        let p = picked(paras, lowers, terms, scores, keep, n);
        let at = positions(lowers, terms, scores, keep, n);
        let out = text::joined(p, "\n\n"@);
        the_order_of_the_text_is_kept(paras, lowers, terms, scores, keep, n);
        as_many_are_kept_as_asked(paras, lowers, terms, scores, keep);
        lemma_relevant_count(lowers, terms, n);
        if keep == 0 {
            let q = text::pieces(out, "\n\n"@);
            as_many_are_kept_as_asked(q, lowercased(q), terms, again, keep);
            assert(p =~= Seq::empty());
            assert(picked(q, lowercased(q), terms, again, keep, q.len() as int) =~= Seq::empty());
        } else {
            text::lemma_paragraphs(md);
            assert(p.len() > 0);
            assert forall|k: int| 0 <= k < p.len() implies text::unbroken(#[trigger] p[k]) by {
                assert(p[k] == paras[at[k]]);
            }
            assert forall|k: int| 0 <= k < p.len() - 1 implies text::firm(#[trigger] p[k]) by {
                assert(at[k] < at[k + 1]);
                assert(p[k] == paras[at[k]]);
            }
            text::splitting_undoes_joining(p);
            let l = lowercased(p);
            assert forall|k: int| 0 <= k < l.len() implies relevant(#[trigger] l[k], terms) by {
                assert(kept(lowers, terms, scores, keep, at[k]));
                assert(l[k] == lowers[at[k]]);
            }
            lemma_all_picked(p, l, terms, again, keep, l.len() as int);
            assert(p.take(p.len() as int) =~= p);
            assert(relevant(l[0], terms));
        }
    }
}

proof fn lemma_position(
    lowers: Seq<Seq<char>>,
    terms: Seq<Seq<char>>,
    scores: Seq<u32>,
    keep: nat,
    n: int,
    i: int,
)
    requires
        0 <= i < n,
        kept(lowers, terms, scores, keep, i),
    ensures
        positions(lowers, terms, scores, keep, n).contains(i),
    decreases n,
{
    let at = positions(lowers, terms, scores, keep, n);
    if i == n - 1 {
        assert(at.last() == i);
    } else {
        lemma_position(lowers, terms, scores, keep, n - 1, i);
        let rest = positions(lowers, terms, scores, keep, n - 1);
        let k = rest.index_of(i);
        assert(at[k] == i);
    }
}

/// A paragraph is about a query as soon as one term of the query stands in it, in whatever case.
/// A text in which no term stands is left as it is. Otherwise what is kept, at the positions that
/// this gives, are such paragraphs, in their order and without anything between them but an empty
/// line: all of them where there are no more than `keep`, and else `keep` of them, of which each
/// has a higher score than every one that is left out, or an equal one and stands before it.
pub proof fn paragraphs_about_the_query_are_kept(
    md: Seq<char>,
    query: Seq<char>,
    scores: Seq<u32>,
    keep: nat,
) -> (at: Seq<int>)
    ensures
        ({
            let paras = text::pieces(md, "\n\n"@);
            let terms = terms_of(query);
            let r = focused(md, query, scores, keep);
            &&& at.len() <= keep
            &&& forall|k: int|
                0 <= k < at.len() ==> 0 <= #[trigger] at[k] < paras.len() && exists|t: int|
                    0 <= t < terms.len() && text::contains(
                        unicode::lowercase(paras[at[k]]),
                        #[trigger] terms[t],
                    )
            &&& forall|k: int, m: int| 0 <= k < m < at.len() ==> #[trigger] at[k] < #[trigger] at[m]
            &&& at.len() < keep ==> forall|i: int, t: int|
                0 <= i < paras.len() && 0 <= t < terms.len() && text::contains(
                    unicode::lowercase(#[trigger] paras[i]),
                    #[trigger] terms[t],
                ) ==> at.contains(i)
            &&& scores.len() == paras.len() ==> forall|i: int, t: int, k: int|
                0 <= i < paras.len() && 0 <= t < terms.len() && text::contains(
                    unicode::lowercase(#[trigger] paras[i]),
                    #[trigger] terms[t],
                ) && !at.contains(i) && 0 <= k < at.len() ==> scores[#[trigger] at[k]] > scores[i]
                    || (scores[at[k]] == scores[i] && at[k] < i)
            &&& forall|i: int, t: int|
                0 <= i < paras.len() && 0 <= t < terms.len() && text::contains(
                    unicode::lowercase(#[trigger] paras[i]),
                    #[trigger] terms[t],
                ) ==> r == text::joined(Seq::new(at.len(), |k: int| paras[at[k]]), "\n\n"@)
            &&& (forall|i: int, t: int|
                0 <= i < paras.len() && 0 <= t < terms.len() ==> !text::contains(
                    unicode::lowercase(#[trigger] paras[i]),
                    #[trigger] terms[t],
                )) ==> r == md
        }),
{
    let paras = text::pieces(md, "\n\n"@);
    let terms = terms_of(query);
    let lowers = lowercased(paras);
    let n = paras.len() as int;
    let at = positions(lowers, terms, scores, keep, n);
    let p = picked(paras, lowers, terms, scores, keep, n);
    the_order_of_the_text_is_kept(paras, lowers, terms, scores, keep, n);
    as_many_are_kept_as_asked(paras, lowers, terms, scores, keep);
    lemma_none_left(lowers, terms, scores, keep, n);
    assert(p =~= Seq::new(at.len(), |k: int| paras[at[k]]));
    assert forall|k: int| 0 <= k < at.len() implies 0 <= #[trigger] at[k] < paras.len() && exists|
        t: int,
    |
        0 <= t < terms.len() && text::contains(
            unicode::lowercase(paras[at[k]]),
            #[trigger] terms[t],
        ) by {
        assert(kept(lowers, terms, scores, keep, at[k]));
        assert(relevant(lowers[at[k]], terms));
    }
    assert forall|i: int, t: int|
        0 <= i < paras.len() && 0 <= t < terms.len() && text::contains(
            unicode::lowercase(#[trigger] paras[i]),
            #[trigger] terms[t],
        ) implies {
        &&& any_relevant(lowers, terms)
        &&& at.len() < keep ==> at.contains(i)
        &&& scores.len() == paras.len() && !at.contains(i) ==> forall|k: int|
            0 <= k < at.len() ==> scores[#[trigger] at[k]] > scores[i] || (scores[at[k]]
                == scores[i] && at[k] < i)
    } by {
        assert(relevant(lowers[i], terms));
        if kept(lowers, terms, scores, keep, i) {
            lemma_position(lowers, terms, scores, keep, n, i);
        } else {
            assert(left_out(lowers, terms, scores, keep, i));
            if !at.contains(i) {
                assert forall|k: int| 0 <= k < at.len() implies beats(
                    scores,
                    #[trigger] at[k],
                    i,
                ) by {
                    the_best_are_kept(lowers, terms, scores, keep, at[k], i);
                }
            }
        }
    }
    if forall|i: int, t: int|
        0 <= i < paras.len() && 0 <= t < terms.len() ==> !text::contains(
            unicode::lowercase(#[trigger] paras[i]),
            #[trigger] terms[t],
        ) {
        assert forall|i: int| 0 <= i < lowers.len() implies !relevant(
            #[trigger] lowers[i],
            terms,
        ) by {
            let para = paras[i];
        }
    }
    at
}

proof fn lemma_bare(p: Seq<char>, x: Seq<char>, q: Seq<char>)
    requires
        forall|i: int| 0 <= i < p.len() ==> !unicode::alphanumeric(#[trigger] p[i]),
        forall|i: int| 0 <= i < q.len() ==> !unicode::alphanumeric(#[trigger] q[i]),
        x.len() > 0,
        unicode::alphanumeric(x[0]),
        unicode::alphanumeric(x.last()),
    ensures
        bare_end(bare_start(p + x + q)) == x,
    decreases p.len() + q.len(),
{
    let s = p + x + q;
    if p.len() > 0 {
        assert(s.drop_first() =~= p.drop_first() + x + q);
        assert(s[0] == p[0]);
        lemma_bare(p.drop_first(), x, q);
    } else {
        assert(s =~= x + q);
        assert(s[0] == x[0]);
        assert(bare_start(s) == s);
        if q.len() > 0 {
            assert(s.drop_last() =~= p + x + q.drop_last());
            assert(s.last() == q.last());
            lemma_bare(p, x, q.drop_last());
            assert(s.drop_last()[0] == x[0]);
            assert(bare_start(s.drop_last()) == s.drop_last());
        } else {
            assert(s =~= x);
        }
    }
}

proof fn lemma_terms_of_words(words: Seq<Seq<char>>)
    ensures
        terms_in(words).len() <= words.len(),
        forall|k: int|
            0 <= k < words.len() && term_of(#[trigger] words[k]) is Some ==> terms_in(
                words,
            ).contains(term_of(words[k])->0),
        forall|t: int|
            0 <= t < terms_in(words).len() ==> exists|k: int|
                0 <= k < words.len() && term_of(#[trigger] words[k]) == Some(
                    #[trigger] terms_in(words)[t],
                ),
    decreases words.len(),
{
    if words.len() > 0 {
        let less = words.drop_last();
        let rest = terms_in(less);
        let all = terms_in(words);
        lemma_terms_of_words(less);
        assert forall|k: int|
            0 <= k < words.len() && term_of(#[trigger] words[k]) is Some implies all.contains(
            term_of(words[k])->0,
        ) by {
            if k < less.len() {
                assert(less[k] == words[k]);
                let t = rest.index_of(term_of(words[k])->0);
                assert(all[t] == rest[t]);
            } else {
                assert(all.last() == term_of(words[k])->0);
            }
        }
        assert forall|t: int| 0 <= t < all.len() implies exists|k: int|
            0 <= k < words.len() && term_of(#[trigger] words[k]) == Some(#[trigger] all[t]) by {
            if t < rest.len() {
                assert(all[t] == rest[t]);
                let k = choose|k: int|
                    0 <= k < less.len() && term_of(#[trigger] less[k]) == Some(rest[t]);
                assert(words[k] == less[k]);
            } else {
                assert(term_of(words[words.len() - 1]) == Some(all[t]));
            }
        }
    }
}

/// Every word of a query that begins and ends with a letter or a digit, and has more than two
/// bytes in lower case, is a term of it, whatever other signs stand around it.
pub proof fn words_of_the_query_are_its_terms(
    query: Seq<char>,
    before: Seq<char>,
    word: Seq<char>,
    behind: Seq<char>,
)
    requires
        text::words(query).contains(before + word + behind),
        forall|i: int| 0 <= i < before.len() ==> !unicode::alphanumeric(#[trigger] before[i]),
        forall|i: int| 0 <= i < behind.len() ==> !unicode::alphanumeric(#[trigger] behind[i]),
        word.len() > 0,
        unicode::alphanumeric(word[0]),
        unicode::alphanumeric(word.last()),
        encode_utf8(unicode::lowercase(word)).len() > 2,
    ensures
        terms_of(query).contains(unicode::lowercase(word)),
{
    let w = text::words(query);
    lemma_bare(before, word, behind);
    lemma_terms_of_words(w);
    let k = w.index_of(before + word + behind);
    assert(term_of(w[k]) == Some(unicode::lowercase(word)));
}

proof fn lemma_bare_part(s: Seq<char>)
    ensures
        exists|from: int, to: int|
            0 <= from <= to <= s.len() && bare_end(bare_start(s)) == #[trigger] s.subrange(from, to),
    decreases s.len(),
{
    if s.len() > 0 && !unicode::alphanumeric(s[0]) {
        let d = s.drop_first();
        lemma_bare_part(d);
        let (f, t) = choose|from: int, to: int|
            0 <= from <= to <= d.len() && bare_end(bare_start(d)) == #[trigger] d.subrange(from, to);
        assert(d.subrange(f, t) =~= s.subrange(f + 1, t + 1));
    } else {
        lemma_bare_end_part(s);
    }
}

proof fn lemma_bare_end_part(s: Seq<char>)
    ensures
        exists|to: int| 0 <= to <= s.len() && bare_end(s) == #[trigger] s.subrange(0, to),
    decreases s.len(),
{
    if s.len() > 0 && !unicode::alphanumeric(s.last()) {
        let d = s.drop_last();
        lemma_bare_end_part(d);
        let t = choose|to: int| 0 <= to <= d.len() && bare_end(d) == #[trigger] d.subrange(0, to);
        assert(d.subrange(0, t) =~= s.subrange(0, t));
    } else {
        assert(s.subrange(0, s.len() as int) =~= s);
    }
}

/// A query has no other terms: each is a part of one of its words in lower case and has more
/// than two bytes, and there are no more of them than words.
pub proof fn terms_are_words_of_the_query(query: Seq<char>, t: int) -> (part: (int, int, int))
    requires
        0 <= t < terms_of(query).len(),
    ensures
        ({
            let w = text::words(query);
            let (k, from, to) = part;
            &&& 0 <= k < w.len() && 0 <= from <= to <= w[k].len()
            &&& terms_of(query)[t] == unicode::lowercase(w[k].subrange(from, to))
            &&& encode_utf8(terms_of(query)[t]).len() > 2
            &&& terms_of(query).len() <= w.len()
        }),
{
    let w = text::words(query);
    lemma_terms_of_words(w);
    let k = choose|k: int|
        0 <= k < w.len() && term_of(#[trigger] w[k]) == Some(terms_of(query)[t]);
    lemma_bare_part(w[k]);
    let (f, e) = choose|from: int, to: int|
        0 <= from <= to <= w[k].len() && bare_end(bare_start(w[k])) == #[trigger] w[k].subrange(
            from,
            to,
        );
    (k, f, e)
}

/// A paragraph whose first sign is a number sign is a heading, one that begins with two asterisks
/// stands out, and one that begins with another sign than these does neither.
pub proof fn marks_follow_from_the_first_signs(blank: Seq<char>, sign: char, rest: Seq<char>)
    requires
        forall|i: int| 0 <= i < blank.len() ==> text::space(#[trigger] blank[i]),
        !text::space(sign),
    ensures
        ({
            let m = mark_of(blank + (seq![sign] + rest));
            &&& sign == '#' ==> m == Mark::Heading
            &&& sign == '*' && rest.len() > 0 && rest[0] == '*' ==> m == Mark::Strong
            &&& sign != '#' && sign != '*' ==> m == Mark::Plain
            &&& sign == '*' && (rest.len() == 0 || rest[0] != '*') ==> m == Mark::Plain
        }),
{
    let x = seq![sign] + rest;
    text::lemma_trim_start(blank, x);
    reveal_strlit("#");
    reveal_strlit("**");
    assert("#"@ =~= seq!['#']);
    assert("**"@ =~= seq!['*', '*']);
    assert(x.subrange(0, 1) =~= seq![sign]);
    assert(seq!['#'][0] == '#');
    assert(seq![sign][0] == sign);
    if x.len() >= 2 {
        let h = x.subrange(0, 2);
        assert(h[0] == sign && h[1] == rest[0]);
        if sign == '*' && rest[0] == '*' {
            assert(h =~= seq!['*', '*']);
        }
    }
}

/// In how many paragraphs a term stands grows by one with each further paragraph in which it
/// does, and not with another.
pub proof fn spread_counts_paragraphs(lowers: Seq<Seq<char>>, lower: Seq<char>, term: Seq<char>)
    ensures
        text::contains(lower, term) ==> spread_of(lowers.push(lower), term) == spread_of(
            lowers,
            term,
        ) + 1,
        !text::contains(lower, term) ==> spread_of(lowers.push(lower), term) == spread_of(
            lowers,
            term,
        ),
        spread_of(Seq::<Seq<char>>::empty(), term) == 0,
{
    assert(lowers.push(lower).drop_last() =~= lowers);
}

/// A survey tells of each paragraph how often each term stands in it, how it is marked off, and
/// whether it is one of the first three; and of each term in how many paragraphs it stands.
pub proof fn surveys_tell_counts_marks_and_places(
    s: Survey,
    paras: Seq<Seq<char>>,
    lowers: Seq<Seq<char>>,
    terms: Seq<Seq<char>>,
    i: int,
    k: int,
)
    requires
        s.describes(paras, lowers, terms),
        0 <= i < paras.len(),
        0 <= k < terms.len(),
    ensures
        s.passages@.len() == paras.len(),
        s.passages@[i].counts@.len() == terms.len(),
        s.passages@[i].counts@[k] == text::count(lowers[i], terms[k]),
        s.passages@[i].mark == mark_of(paras[i]),
        s.passages@[i].early <==> i < 3,
        s.spread@.len() == terms.len(),
        s.spread@[k] == spread_of(lowers, terms[k]),
{
    assert(s.passages@[i].describes(paras[i], lowers[i], terms, i));
    let t = terms[k];
}

} // verus!
