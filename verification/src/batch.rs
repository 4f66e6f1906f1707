//! Scraping several pages at once: the answers are put back into the order of the request.

use crate::answer;
use crate::answer::ResultView;
use crate::answer::ScrapeResult;
use crate::text;
use vstd::prelude::*;

verus! {

/// The answers for a batch of pages.
#[derive(Debug)]
pub struct BatchResult {
    pub results: Vec<ScrapeResult>,
    pub total: usize,
    pub ok_count: usize,
}

/// Whether a batch has an admissible number of pages.
pub fn admissible(urls: &[String]) -> (r: bool)
    ensures
        r == (1 <= urls@.len() <= 10),
{
    urls.len() > 0 && urls.len() <= 10
}

/// What is answered for a page that could not be fetched.
pub open spec fn failure(url: Seq<char>, error: Seq<char>) -> ResultView {
    ResultView {
        url,
        title: seq![],
        markdown: seq![],
        clean_html: seq![],
        tier: "http"@,
        content_ok: false,
        blocked: false,
        note: Some("fetch failed: "@ + error),
        next_action: Some("try another URL or check connectivity"@),
        total_chars: 0,
        truncated: false,
        page_type: "unknown"@,
        quality_bits: 0,
        description: None,
        links: seq![],
        headings: seq![],
        next_offset: None,
        media: seq![],
    }
}

/// What is answered for a page that could not be fetched.
pub fn failed(url: &str, error: &str) -> (r: ScrapeResult)
    ensures
        r@ == failure(url@, error@),
{
    let mut note = "fetch failed: ".to_owned();
    note.append(error);
    let r = ScrapeResult {
        url: url.to_owned(),
        title: String::new(),
        markdown: String::new(),
        clean_html: String::new(),
        tier: "http".to_owned(),
        content_ok: false,
        blocked: false,
        note: Some(note),
        next_action: Some("try another URL or check connectivity".to_owned()),
        total_chars: 0,
        truncated: false,
        page_type: "unknown".to_owned(),
        quality_bits: 0,
        description: None,
        links: Vec::new(),
        headings: Vec::new(),
        next_offset: None,
        media: Vec::new(),
    };
    assert(r@.links =~= Seq::empty());
    assert(text::views(Seq::<String>::empty()) =~= Seq::empty());
    r
}

/// What came of one page of a batch: its answer, or the message of the error.
pub struct Outcome {
    pub url: String,
    pub answer: Result<ScrapeResult, String>,
}

impl View for Outcome {
    type V = (Seq<char>, ResultView);

    /// The page, and what is answered for it.
    open spec fn view(&self) -> (Seq<char>, ResultView) {
        (
            self.url@,
            match self.answer {
                Ok(a) => ResultView { url: self.url@, ..a@ },
                Err(e) => failure(self.url@, e@),
            },
        )
    }
}

/// The outcomes behind a list.
pub open spec fn outcome_views(v: Seq<Outcome>) -> Seq<(Seq<char>, ResultView)> {
    Seq::new(v.len(), |i: int| v[i]@)
}

/// The last answer that came for `url`, if any did.
pub open spec fn latest(outs: Seq<(Seq<char>, ResultView)>, url: Seq<char>) -> Option<ResultView>
    decreases outs.len(),
{
    if outs.len() == 0 {
        None
    } else if outs.last().0 == url {
        Some(outs.last().1)
    } else {
        latest(outs.drop_last(), url)
    }
}

/// What is answered for a page of a batch: the last answer that came for it, or a failure
/// where none did.
pub open spec fn answer_for(outs: Seq<(Seq<char>, ResultView)>, url: Seq<char>) -> ResultView {
    match latest(outs, url) {
        Some(a) => a,
        None => failure(url, "no answer came back"@),
    }
}

/// What is answered for each of the pages, in their order.
pub open spec fn ordered(
    urls: Seq<Seq<char>>,
    outs: Seq<(Seq<char>, ResultView)>,
) -> Seq<ResultView> {
    Seq::new(urls.len(), |i: int| answer_for(outs, urls[i]))
}

/// How many of the answers are usable content.
pub open spec fn usable_count(answers: Seq<ResultView>) -> nat
    decreases answers.len(),
{
    if answers.len() == 0 {
        0
    } else {
        usable_count(answers.drop_last()) + if answers.last().content_ok {
            1nat
        } else {
            0
        }
    }
}

/// What is answered for a page of a batch.
fn find_answer(outs: &[Outcome], url: &str) -> (r: ScrapeResult)
    ensures
        r@ == answer_for(outcome_views(outs@), url@),
{
    let ghost all = outcome_views(outs@);
    let mut i: usize = outs.len();
    assert(all.take(all.len() as int) == all);
    while i > 0
        invariant
            i <= outs@.len(),
            all == outcome_views(outs@),
            latest(all, url@) == latest(all.take(i as int), url@),
        decreases i,
    {
        assert(all.take(i as int).drop_last() == all.take(i - 1));
        assert(all.take(i as int).last() == outs@[i - 1]@);
        let o = &outs[i - 1];
        if text::same(o.url.as_str(), url) {
            return match &o.answer {
                Ok(a) => {
                    let mut r = a.clone();
                    r.url = url.to_owned();
                    r
                },
                Err(e) => failed(url, e.as_str()),
            };
        }
        i -= 1;
    }
    failed(url, "no answer came back")
}

/// Puts the outcomes of a batch, in whatever order they came, into the order of the request:
/// one answer for each page that was asked for.
pub fn gather(urls: &[String], outs: &[Outcome]) -> (r: BatchResult)
    ensures
        answer::result_views(r.results@) == ordered(text::views(urls@), outcome_views(outs@)),
        r.results@.len() == urls@.len(),
        r.total == urls@.len(),
        r.ok_count == usable_count(answer::result_views(r.results@)),
{
    let ghost all = outcome_views(outs@);
    let ghost u = text::views(urls@);
    let mut results: Vec<ScrapeResult> = Vec::new();
    let mut ok_count: usize = 0;
    let mut i: usize = 0;
    assert(answer::result_views(results@) =~= ordered(u, all).take(0));
    while i < urls.len()
        invariant
            i <= urls@.len(),
            u == text::views(urls@),
            all == outcome_views(outs@),
            results@.len() == i,
            answer::result_views(results@) == ordered(u, all).take(i as int),
            ok_count <= i,
            ok_count == usable_count(answer::result_views(results@)),
        decreases urls@.len() - i,
    {
        let ghost before = answer::result_views(results@);
        let a = find_answer(outs, urls[i].as_str());
        if a.content_ok {
            ok_count += 1;
        }
        results.push(a);
        proof {
            let after = answer::result_views(results@);
            assert(after =~= before.push(a@));
            assert(after.drop_last() =~= before);
            assert(after =~= ordered(u, all).take(i + 1));
        }
        i += 1;
    }
    assert(ordered(u, all).take(i as int) =~= ordered(u, all));
    BatchResult { total: results.len(), results, ok_count }
}

/// Each outcome is one of its own page.
proof fn lemma_latest(outs: Seq<Outcome>, url: Seq<char>)
    ensures
        latest(outcome_views(outs), url) matches Some(a) ==> a.url == url,
    decreases outs.len(),
{
    if outs.len() > 0 {
        assert(outcome_views(outs).drop_last() =~= outcome_views(outs.drop_last()));
        lemma_latest(outs.drop_last(), url);
    }
}

/// The answers of a batch stand in the order of the request, one for each page that was asked
/// for and under its address, however the outcomes came in. A page whose fetch failed, or for
/// which nothing came back, is answered with no text and a note that says so.
pub proof fn answers_follow_the_request(urls: Seq<Seq<char>>, outs: Seq<Outcome>, i: int)
    requires
        0 <= i < urls.len(),
    ensures
        ({
            let views = outcome_views(outs);
            let answers = ordered(urls, views);
            &&& answers.len() == urls.len()
            &&& answers[i].url == urls[i]
            &&& latest(views, urls[i]) matches Some(a) ==> answers[i] == a
            &&& latest(views, urls[i]) is None ==> {
                &&& !answers[i].content_ok
                &&& answers[i].markdown.len() == 0
                &&& answers[i].note == Some("fetch failed: "@ + "no answer came back"@)
            }
        }),
{
    lemma_latest(outs, urls[i]);
}

/// A failed fetch is no content: it has no text, and its note gives the error.
pub proof fn failures_are_explained(o: Outcome)
    ensures
        o.answer matches Err(e) ==> {
            &&& o@.1.url == o.url@
            &&& !o@.1.content_ok
            &&& o@.1.markdown.len() == 0
            &&& o@.1.note == Some("fetch failed: "@ + e@)
        },
{
}

/// Outcomes for different pages may come in any order: exchanging two neighbours changes no
/// page's answer.
pub proof fn completion_order_is_irrelevant(
    outs: Seq<(Seq<char>, ResultView)>,
    i: int,
    url: Seq<char>,
)
    requires
        0 <= i,
        i + 1 < outs.len(),
        outs[i].0 != outs[i + 1].0,
    ensures
        latest(outs.update(i, outs[i + 1]).update(i + 1, outs[i]), url) == latest(outs, url),
    decreases outs.len(),
{
    let swapped = outs.update(i, outs[i + 1]).update(i + 1, outs[i]);
    if i + 2 < outs.len() {
        assert(swapped.drop_last() == outs.drop_last().update(i, outs[i + 1]).update(
            i + 1,
            outs[i],
        ));
        completion_order_is_irrelevant(outs.drop_last(), i, url);
    } else {
        assert(swapped.drop_last().drop_last() == outs.drop_last().drop_last());
        reveal_with_fuel(latest, 3);
    }
}

proof fn lemma_only(outs: Seq<(Seq<char>, ResultView)>, url: Seq<char>, j: int)
    requires
        0 <= j < outs.len(),
        outs[j].0 == url,
        forall|k: int| j < k < outs.len() ==> (#[trigger] outs[k]).0 != url,
    ensures
        latest(outs, url) == Some(outs[j].1),
    decreases outs.len(),
{
    if j < outs.len() - 1 {
        assert(outs[outs.len() - 1].0 != url);
        let less = outs.drop_last();
        assert forall|k: int| j < k < less.len() implies (#[trigger] less[k]).0 != url by {
            assert(less[k] == outs[k]);
        }
        assert(less[j] == outs[j]);
        lemma_only(less, url, j);
    }
}

/// A page of a batch whose fetch went well is answered with what came of it, under the address that
/// was asked for and with nothing else changed, wherever it came in; one whose fetch failed is
/// answered with the message of the error. If there were several outcomes, the last one counts.
pub proof fn each_page_gets_its_own_answer(
    urls: Seq<Seq<char>>,
    outs: Seq<Outcome>,
    i: int,
    j: int,
)
    requires
        0 <= i < urls.len(),
        0 <= j < outs.len(),
        outs[j].url@ == urls[i],
        forall|k: int| j < k < outs.len() ==> (#[trigger] outs[k]).url@ != urls[i],
    ensures
        ({
            let a = ordered(urls, outcome_views(outs))[i];
            &&& a.url == urls[i]
            &&& outs[j].answer matches Ok(x) ==> a == ResultView { url: urls[i], ..x@ }
            &&& outs[j].answer matches Err(e) ==> !a.content_ok && a.note == Some(
                "fetch failed: "@ + e@,
            ) && a.markdown.len() == 0 && a.next_action is Some
        }),
{
    let v = outcome_views(outs);
    assert forall|k: int| j < k < v.len() implies (#[trigger] v[k]).0 != urls[i] by {
        assert(v[k] == outs[k]@);
    }
    assert(v[j] == outs[j]@);
    lemma_only(v, urls[i], j);
}

/// The answers that are usable are counted one by one.
pub proof fn usable_answers_are_counted(answers: Seq<ResultView>, a: ResultView)
    ensures
        a.content_ok ==> usable_count(answers.push(a)) == usable_count(answers) + 1,
        !a.content_ok ==> usable_count(answers.push(a)) == usable_count(answers),
        usable_count(Seq::<ResultView>::empty()) == 0,
{
    assert(answers.push(a).drop_last() =~= answers);
}

} // verus!
