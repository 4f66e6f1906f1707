//! What the browser is told to do, and what is answered of a screenshot.

use crate::bindings::codec;
use crate::request::Action;
use crate::text;
use vstd::prelude::*;

verus! {

/// One step of driving the browser.
#[derive(Debug)]
pub enum Step {
    /// Wait for some milliseconds.
    Sleep(u64),
    /// Wait up to five seconds for an element; click it if it comes.
    Click(String),
    /// Wait up to five seconds for an element; click it and type into it if it comes.
    Fill { selector: String, text: String },
    /// Press a key.
    Press(String),
    /// Evaluate a script.
    Evaluate(String),
}

/// The contents of a step.
pub enum StepView {
    Sleep(u64),
    Click(Seq<char>),
    Fill(Seq<char>, Seq<char>),
    Press(Seq<char>),
    Evaluate(Seq<char>),
}

impl View for Step {
    type V = StepView;

    open spec fn view(&self) -> StepView {
        match self {
            Step::Sleep(ms) => StepView::Sleep(*ms),
            Step::Click(s) => StepView::Click(s@),
            Step::Fill { selector, text } => StepView::Fill(selector@, text@),
            Step::Press(k) => StepView::Press(k@),
            Step::Evaluate(e) => StepView::Evaluate(e@),
        }
    }
}

/// The steps behind a list.
pub open spec fn step_views(v: Seq<Step>) -> Seq<StepView> {
    Seq::new(v.len(), |i: int| v[i]@)
}

/// The steps of one action, with the pause behind it.
pub open spec fn steps_for(a: Action) -> Seq<StepView> {
    match a {
        Action::Click(s) => seq![StepView::Click(s@), StepView::Sleep(300)],
        Action::Fill { selector, text } => seq![
            StepView::Fill(selector@, text@),
            StepView::Sleep(300),
        ],
        Action::Press(k) => seq![StepView::Press(k@), StepView::Sleep(300)],
        Action::Wait(ms) => seq![StepView::Sleep(ms), StepView::Sleep(300)],
        Action::Scroll(px) => seq![
            StepView::Evaluate("window.scrollBy(0,"@ + text::decimal(px as nat) + ")"@),
            StepView::Sleep(250),
            StepView::Sleep(300),
        ],
    }
}

/// The steps of a list of actions, in their order.
pub open spec fn steps_for_all(actions: Seq<Action>) -> Seq<StepView>
    decreases actions.len(),
{
    if actions.len() == 0 {
        seq![]
    } else {
        steps_for_all(actions.drop_last()) + steps_for(actions.last())
    }
}

/// The whole run: the page settles, the actions follow, and the page settles again.
pub open spec fn script_of(actions: Seq<Action>) -> Seq<StepView> {
    seq![StepView::Sleep(700)] + steps_for_all(actions) + seq![StepView::Sleep(600)]
}

/// Adds a step.
fn add_step(steps: &mut Vec<Step>, step: Step)
    ensures
        step_views(final(steps)@) == step_views(old(steps)@).push(step@),
{
    steps.push(step);
}

/// The steps that carry out the actions on a loaded page, in their order.
pub fn browser_steps(actions: &[Action]) -> (r: Vec<Step>)
    ensures
        step_views(r@) == script_of(actions@),
{
    let mut r: Vec<Step> = Vec::new();
    add_step(&mut r, Step::Sleep(700));
    let mut i: usize = 0;
    assert(step_views(r@) == seq![StepView::Sleep(700)] + steps_for_all(actions@.take(0)));
    while i < actions.len()
        invariant
            i <= actions@.len(),
            step_views(r@) == seq![StepView::Sleep(700)] + steps_for_all(actions@.take(i as int)),
        decreases actions@.len() - i,
    {
        assert(actions@.take(i + 1).drop_last() == actions@.take(i as int));
        let ghost before = step_views(r@);
        match &actions[i] {
            Action::Click(s) => {
                add_step(&mut r, Step::Click(s.clone()));
            },
            Action::Fill { selector, text } => {
                add_step(
                    &mut r,
                    Step::Fill { selector: selector.clone(), text: text.clone() },
                );
            },
            Action::Press(k) => {
                add_step(&mut r, Step::Press(k.clone()));
            },
            Action::Wait(ms) => {
                add_step(&mut r, Step::Sleep(*ms));
            },
            Action::Scroll(px) => {
                let mut e = "window.scrollBy(0,".to_owned();
                e.append(text::show(*px as usize).as_str());
                e.append(")");
                add_step(&mut r, Step::Evaluate(e));
                add_step(&mut r, Step::Sleep(250));
            },
        }
        add_step(&mut r, Step::Sleep(300));
        assert(step_views(r@) == before + steps_for(actions@[i as int]));
        i += 1;
    }
    assert(actions@.take(i as int) == actions@);
    add_step(&mut r, Step::Sleep(600));
    r
}

// ── Screenshots ─────────────────────────────────────────────────────────────

/// The encoded picture, cut to twenty thousand characters with a remark on the size.
pub open spec fn shortened(encoded: Seq<char>, size: nat) -> Seq<char> {
    if encoded.len() > 20000 {
        encoded.take(20000) + "...[truncated "@ + text::decimal(size) + " bytes]"@
    } else {
        encoded
    }
}

/// The encoded picture, cut to twenty thousand characters with a remark on the size.
pub fn shorten(encoded: String, size: usize) -> (r: String)
    ensures
        r@ == shortened(encoded@, size as nat),
{
    let c = text::to_chars(encoded.as_str());
    if c.len() > 20000 {
        let mut r = text::from_chars(&c, 0, 20000);
        assert(r@ == encoded@.take(20000));
        r.append("...[truncated ");
        r.append(text::show(size).as_str());
        r.append(" bytes]");
        r
    } else {
        encoded
    }
}

/// The text that is answered for a picture. The picture must leave room for its encoding.
pub fn screenshot_text(png: &[u8]) -> (r: String)
    requires
        png@.len() / 3 * 4 + 4 <= isize::MAX,
    ensures
        r@ == shortened(codec::base64_text(png@), png@.len()),
        png@.len() <= 15000 ==> codec::base64_bytes(r@) == Some(png@),
{
    shorten(codec::base64_encode(png), png.len())
}

// ── Laws ────────────────────────────────────────────────────────────────────

proof fn lemma_steps_concat(a: Seq<Action>, b: Seq<Action>)
    ensures
        steps_for_all(a + b) == steps_for_all(a) + steps_for_all(b),
    decreases b.len(),
{
    if b.len() == 0 {
        assert(a + b =~= a);
        assert(steps_for_all(a) + steps_for_all(b) =~= steps_for_all(a));
    } else {
        assert((a + b).drop_last() =~= a + b.drop_last());
        assert((a + b).last() == b.last());
        lemma_steps_concat(a, b.drop_last());
        assert(steps_for_all(a + b) =~= steps_for_all(a) + steps_for_all(b));
    }
}

/// Every action is carried out, as it was asked for, between what comes before it and what comes
/// behind it, and nothing else is but pauses: before the first, behind each and behind the last.
pub proof fn actions_are_carried_out_in_order(before: Seq<Action>, a: Action, behind: Seq<Action>)
    ensures
        ({
            let all = script_of(before + seq![a] + behind);
            let first = steps_for_all(before);
            let n = 1 + first.len() as int;
            &&& all[0] == StepView::Sleep(700)
            &&& all.subrange(1, n) == first
            &&& all.last() == StepView::Sleep(600)
            &&& a matches Action::Click(s) ==> all[n] == StepView::Click(s@) && all[n + 1]
                == StepView::Sleep(300)
            &&& a matches Action::Fill { selector, text } ==> all[n] == StepView::Fill(
                selector@,
                text@,
            ) && all[n + 1] == StepView::Sleep(300)
            &&& a matches Action::Press(k) ==> all[n] == StepView::Press(k@) && all[n + 1]
                == StepView::Sleep(300)
            &&& a matches Action::Wait(ms) ==> all[n] == StepView::Sleep(ms) && all[n + 1]
                == StepView::Sleep(300)
            &&& a matches Action::Scroll(px) ==> all[n] == StepView::Evaluate(
                "window.scrollBy(0,"@ + text::decimal(px as nat) + ")"@,
            ) && all[n + 1] == StepView::Sleep(250) && all[n + 2] == StepView::Sleep(300)
            &&& steps_for(a).len() == if a is Scroll {
                3int
            } else {
                2
            }
            &&& steps_for_all(Seq::<Action>::empty()).len() == 0
            &&& all == seq![StepView::Sleep(700)] + first + steps_for(a) + steps_for_all(behind)
                + seq![StepView::Sleep(600)]
        }),
{
    let one = seq![a];
    lemma_steps_concat(before + one, behind);
    lemma_steps_concat(before, one);
    assert(one.drop_last() =~= Seq::<Action>::empty());
    assert(one.last() == a);
    assert(steps_for_all(Seq::<Action>::empty()) =~= Seq::<StepView>::empty());
    assert(steps_for_all(one) =~= steps_for(a));
    let all = script_of(before + one + behind);
    let first = steps_for_all(before);
    let n = 1 + first.len() as int;
    let mine = steps_for(a);
    assert(all =~= seq![StepView::Sleep(700)] + first + mine + steps_for_all(behind) + seq![
        StepView::Sleep(600),
    ]);
    assert(all.subrange(1, n) =~= first);
    assert(mine.len() >= 2);
    assert(all[n] == mine[0] && all[n + 1] == mine[1]);
    if a is Scroll {
        assert(all[n + 2] == mine[2]);
    }
}

/// A picture whose encoding has at most twenty thousand characters is answered whole, and another
/// one by as many, with a remark on its size.
pub proof fn small_pictures_are_answered_whole(encoded: Seq<char>, size: nat)
    ensures
        encoded.len() <= 20000 ==> shortened(encoded, size) == encoded,
        encoded.len() > 20000 ==> {
            &&& text::starts_with(shortened(encoded, size), encoded.take(20000))
            &&& text::contains(shortened(encoded, size), text::decimal(size))
        },
{
    if encoded.len() > 20000 {
        let a = encoded.take(20000);
        let b = "...[truncated "@;
        let c = text::decimal(size);
        let d = " bytes]"@;
        let r = shortened(encoded, size);
        assert(r =~= a + (b + c + d));
        text::what_is_put_in_is_found(Seq::empty(), a, b + c + d);
        assert(r =~= (a + b) + c + d);
        text::what_is_put_in_is_found(a + b, c, d);
    }
}

} // verus!
