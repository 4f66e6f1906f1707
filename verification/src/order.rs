//! Putting things in order.

use crate::text;
use vstd::prelude::*;

verus! {

// ── Best first ──────────────────────────────────────────────────────────────

/// `sorted` with `i` placed behind everything that scores at least as high.
pub open spec fn placed(scores: Seq<nat>, sorted: Seq<int>, i: int) -> Seq<int>
    decreases sorted.len(),
{
    if sorted.len() == 0 || scores[sorted.last()] >= scores[i] {
        sorted.push(i)
    } else {
        placed(scores, sorted.drop_last(), i).push(sorted.last())
    }
}

/// The first `n` positions of a list of scores, best first; equal ones stay in order.
pub open spec fn ranking_of(scores: Seq<nat>, n: int) -> Seq<int>
    decreases n,
{
    if n <= 0 {
        seq![]
    } else {
        placed(scores, ranking_of(scores, n - 1), n - 1)
    }
}

/// The positions of a list of scores, best first; equal ones stay in order.
pub open spec fn ranking(scores: Seq<nat>) -> Seq<int> {
    ranking_of(scores, scores.len() as int)
}

/// The numbers behind a list.
pub open spec fn nats(v: Seq<u128>) -> Seq<nat> {
    Seq::new(v.len(), |i: int| v[i] as nat)
}

/// The positions behind a list.
pub open spec fn ints(v: Seq<usize>) -> Seq<int> {
    Seq::new(v.len(), |i: int| v[i] as int)
}

/// `a` comes before `b`: it scores higher, or as high and stood first.
pub open spec fn ahead(scores: Seq<nat>, a: int, b: int) -> bool {
    scores[a] > scores[b] || (scores[a] == scores[b] && a < b)
}

proof fn lemma_placed(scores: Seq<nat>, sorted: Seq<int>, i: int)
    requires
        forall|k: int| 0 <= k < sorted.len() ==> 0 <= #[trigger] sorted[k] < i,
        forall|k: int, m: int|
            0 <= k < m < sorted.len() ==> ahead(scores, #[trigger] sorted[k], #[trigger] sorted[m]),
    ensures
        placed(scores, sorted, i).len() == sorted.len() + 1,
        forall|k: int|
            0 <= k <= sorted.len() ==> {
                ||| #[trigger] placed(scores, sorted, i)[k] == i
                ||| sorted.contains(placed(scores, sorted, i)[k])
            },
        forall|x: int|
            sorted.contains(x) || x == i ==> #[trigger] placed(scores, sorted, i).contains(x),
        forall|k: int, m: int|
            0 <= k < m <= sorted.len() ==> ahead(
                scores,
                #[trigger] placed(scores, sorted, i)[k],
                #[trigger] placed(scores, sorted, i)[m],
            ),
    decreases sorted.len(),
{
    let p = placed(scores, sorted, i);
    if sorted.len() == 0 || scores[sorted.last()] >= scores[i] {
        assert(p[sorted.len() as int] == i);
        assert forall|x: int| sorted.contains(x) || x == i implies #[trigger] p.contains(x) by {
            if sorted.contains(x) {
                assert(p[sorted.index_of(x)] == x);
            }
        }
        assert forall|k: int| 0 <= k <= sorted.len() implies (#[trigger] p[k] == i
            || sorted.contains(p[k])) by {
            if k < sorted.len() {
                assert(p[k] == sorted[k]);
            }
        }
        assert forall|k: int, m: int| 0 <= k < m <= sorted.len() implies ahead(
            scores,
            #[trigger] p[k],
            #[trigger] p[m],
        ) by {
            assert(p[k] == sorted[k]);
            if m < sorted.len() {
                assert(p[m] == sorted[m]);
            } else {
                let l = sorted.len() - 1;
                assert(sorted[l] == sorted.last());
                if k < l {
                    assert(ahead(scores, sorted[k], sorted[l]));
                }
            }
        }
    } else {
        let rest = sorted.drop_last();
        let q = placed(scores, rest, i);
        assert forall|k: int| 0 <= k < rest.len() implies 0 <= #[trigger] rest[k] < i by {
            assert(rest[k] == sorted[k]);
        }
        assert forall|k: int, m: int| 0 <= k < m < rest.len() implies ahead(
            scores,
            #[trigger] rest[k],
            #[trigger] rest[m],
        ) by {
            assert(rest[k] == sorted[k] && rest[m] == sorted[m]);
        }
        lemma_placed(scores, rest, i);
        let l = sorted.len() - 1;
        assert(p[l + 1] == sorted[l]);
        assert forall|k: int| 0 <= k <= sorted.len() implies (#[trigger] p[k] == i
            || sorted.contains(p[k])) by {
            if k <= l {
                assert(p[k] == q[k]);
                if q[k] != i {
                    assert(sorted[rest.index_of(q[k])] == q[k]);
                }
            } else {
                assert(sorted[l] == p[k]);
            }
        }
        assert forall|x: int| sorted.contains(x) || x == i implies #[trigger] p.contains(x) by {
            if x == i {
                assert(q.contains(i));
                assert(p[q.index_of(x)] == x);
            } else {
                let k = sorted.index_of(x);
                if k < l {
                    assert(rest[k] == x);
                    assert(q.contains(x));
                    assert(p[q.index_of(x)] == x);
                } else {
                    assert(p[l + 1] == x);
                }
            }
        }
        assert forall|k: int, m: int| 0 <= k < m <= sorted.len() implies ahead(
            scores,
            #[trigger] p[k],
            #[trigger] p[m],
        ) by {
            assert(p[k] == q[k]);
            if m <= l {
                assert(p[m] == q[m]);
            } else if q[k] != i {
                let j = rest.index_of(q[k]);
                assert(rest[j] == sorted[j]);
                assert(ahead(scores, sorted[j], sorted[l]));
            }
        }
    }
}

/// Every position has its place in the ranking, and one comes before another exactly if it
/// scores higher, or as high and stood first.
pub proof fn ranking_is_best_first(scores: Seq<nat>, n: int)
    requires
        0 <= n <= scores.len(),
    ensures
        ranking_of(scores, n).len() == n,
        forall|k: int| 0 <= k < n ==> 0 <= #[trigger] ranking_of(scores, n)[k] < n,
        forall|x: int| 0 <= x < n ==> #[trigger] ranking_of(scores, n).contains(x),
        forall|k: int, m: int|
            0 <= k < m < n ==> ahead(
                scores,
                #[trigger] ranking_of(scores, n)[k],
                #[trigger] ranking_of(scores, n)[m],
            ),
    decreases n,
{
    if n > 0 {
        ranking_is_best_first(scores, n - 1);
        let rest = ranking_of(scores, n - 1);
        let all = ranking_of(scores, n);
        lemma_placed(scores, rest, n - 1);
        assert forall|k: int| 0 <= k < n implies 0 <= #[trigger] all[k] < n by {
            if all[k] != n - 1 {
                let j = rest.index_of(all[k]);
                assert(0 <= rest[j] < n - 1);
            }
        }
        assert forall|x: int| 0 <= x < n implies #[trigger] all.contains(x) by {
            if x < n - 1 {
                assert(rest.contains(x));
            }
        }
    }
}

/// The positions of a list of scores, best first; equal ones stay in order.
pub fn rank_positions(scores: &[u128]) -> (r: Vec<usize>)
    ensures
        ints(r@) == ranking(nats(scores@)),
        r@.len() == scores@.len(),
        forall|k: int| 0 <= k < r@.len() ==> #[trigger] r@[k] < scores@.len(),
{
    let ghost s = nats(scores@);
    let mut r: Vec<usize> = Vec::new();
    let mut i: usize = 0;
    while i < scores.len()
        invariant
            i <= scores@.len(),
            s == nats(scores@),
            ints(r@) == ranking_of(s, i as int),
            r@.len() == i,
            forall|k: int| 0 <= k < r@.len() ==> #[trigger] r@[k] < i,
        decreases scores@.len() - i,
    {
        let ghost before = r@;
        let mut at: usize = r.len();
        assert(ints(before).take(at as int) == ints(before));
        assert(ints(before).skip(at as int) == Seq::<int>::empty());
        while at > 0 && scores[r[at - 1]] < scores[i]
            invariant
                at <= r@.len(),
                i < scores@.len(),
                r@ == before,
                s == nats(scores@),
                forall|k: int| 0 <= k < r@.len() ==> #[trigger] r@[k] < i,
                placed(s, ints(before), i as int) == placed(
                    s,
                    ints(before).take(at as int),
                    i as int,
                ) + ints(before).skip(at as int),
            decreases at,
        {
            let ghost head = ints(before).take(at as int);
            let ghost tail = ints(before).skip(at as int);
            assert(head.last() == before[at - 1] as int);
            assert(head.drop_last() == ints(before).take(at - 1));
            assert(placed(s, head.drop_last(), i as int).push(head.last()) + tail == placed(
                s,
                head.drop_last(),
                i as int,
            ) + ints(before).skip(at - 1));
            at -= 1;
        }
        let ghost head = ints(before).take(at as int);
        assert(at > 0 ==> head.last() == before[at - 1] as int);
        r.insert(at, i);
        assert(ints(r@) == head.push(i as int) + ints(before).skip(at as int));
        i += 1;
    }
    r
}

// ── Dictionary order ────────────────────────────────────────────────────────

/// `a` comes before `b` in dictionary order, character by character.
pub open spec fn less(a: Seq<char>, b: Seq<char>) -> bool
    decreases a.len(),
{
    if b.len() == 0 {
        false
    } else if a.len() == 0 {
        true
    } else if a[0] == b[0] {
        less(a.drop_first(), b.drop_first())
    } else {
        a[0] < b[0]
    }
}

proof fn lemma_less_transitive(a: Seq<char>, b: Seq<char>, c: Seq<char>)
    requires
        less(a, b),
        less(b, c),
    ensures
        less(a, c),
    decreases a.len(),
{
    if a.len() > 0 && a[0] == b[0] && b[0] == c[0] {
        lemma_less_transitive(a.drop_first(), b.drop_first(), c.drop_first());
    }
}

proof fn lemma_less_total(a: Seq<char>, b: Seq<char>)
    ensures
        a == b ==> !less(a, b),
        a != b ==> less(a, b) || less(b, a),
        !(less(a, b) && less(b, a)),
    decreases a.len(),
{
    if a.len() > 0 && b.len() > 0 {
        lemma_less_total(a.drop_first(), b.drop_first());
        if a[0] == b[0] && a.drop_first() == b.drop_first() {
            assert(a =~= seq![a[0]] + a.drop_first());
            assert(b =~= seq![b[0]] + b.drop_first());
        }
    } else if a.len() == 0 && b.len() == 0 {
        assert(a =~= b);
    }
}

/// In dictionary order, nothing twice.
pub open spec fn increasing(s: Seq<Seq<char>>) -> bool {
    forall|i: int, j: int| 0 <= i < j < s.len() ==> less(#[trigger] s[i], #[trigger] s[j])
}

/// Whether `a` comes before `b` in dictionary order.
pub fn comes_before(a: &str, b: &str) -> (r: bool)
    ensures
        r == less(a@, b@),
{
    let x = text::to_chars(a);
    let y = text::to_chars(b);
    let mut i: usize = 0;
    assert(x@.skip(0) == x@);
    assert(y@.skip(0) == y@);
    while i < x.len() && i < y.len() && x[i] == y[i]
        invariant
            i <= x@.len(),
            i <= y@.len(),
            less(x@, y@) == less(x@.skip(i as int), y@.skip(i as int)),
        decreases x@.len() - i,
    {
        assert(x@.skip(i as int).drop_first() == x@.skip(i + 1));
        assert(y@.skip(i as int).drop_first() == y@.skip(i + 1));
        i += 1;
    }
    if i >= y.len() {
        false
    } else if i >= x.len() {
        true
    } else {
        x[i] < y[i]
    }
}

/// The texts of a list in dictionary order, nothing twice.
pub fn sorted_set(list: &[String]) -> (r: Vec<String>)
    ensures
        increasing(text::views(r@)),
        forall|t: Seq<char>|
            #[trigger] text::views(r@).contains(t) <==> text::views(list@).contains(t),
{
    let ghost all = text::views(list@);
    let mut r: Vec<String> = Vec::new();
    let mut i: usize = 0;
    while i < list.len()
        invariant
            i <= list@.len(),
            all == text::views(list@),
            increasing(text::views(r@)),
            forall|t: Seq<char>|
                #[trigger] text::views(r@).contains(t) <==> all.take(i as int).contains(t),
        decreases list@.len() - i,
    {
        let ghost before = text::views(r@);
        let ghost x = all[i as int];
        assert(all.take(i + 1) == all.take(i as int).push(x));
        assert forall|t: Seq<char>| all.take(i + 1).contains(t) <==> (all.take(i as int).contains(t)
            || t == x) by {
            if all.take(i as int).contains(t) {
                assert(all.take(i + 1)[all.take(i as int).index_of(t)] == t);
            }
            if t == x {
                assert(all.take(i + 1)[i as int] == t);
            }
            if all.take(i + 1).contains(t) {
                let k = all.take(i + 1).index_of(t);
                if k < i {
                    assert(all.take(i as int)[k] == t);
                }
            }
        }
        if text::listed(&r, list[i].as_str()) {
            assert(before.contains(x));
        } else {
            let mut at: usize = r.len();
            while at > 0 && comes_before(list[i].as_str(), r[at - 1].as_str())
                invariant
                    at <= r@.len(),
                    i < list@.len(),
                    x == list@[i as int]@,
                    before == text::views(r@),
                    increasing(before),
                    !before.contains(x),
                    forall|k: int| at <= k < before.len() ==> less(x, #[trigger] before[k]),
                decreases at,
            {
                assert(before[at - 1] == r@[at - 1]@);
                at -= 1;
            }
            let ghost old_r = r@;
            r.insert(at, list[i].clone());
            proof {
                let after = text::views(r@);
                assert(after == before.insert(at as int, x));
                if at > 0 {
                    assert(before[at - 1] == old_r[at - 1]@);
                    lemma_less_total(x, before[at - 1]);
                    assert(before[at - 1] != x) by {
                        assert(!before.contains(x));
                    }
                    assert(less(before[at - 1], x));
                }
                assert forall|k: int| 0 <= k < at implies less(#[trigger] before[k], x) by {
                    if k < at - 1 {
                        lemma_less_transitive(before[k], before[at - 1], x);
                    }
                }
                assert forall|k: int, m: int| 0 <= k < m < after.len() implies less(
                    #[trigger] after[k],
                    #[trigger] after[m],
                ) by {
                    if k < at && m > at {
                        assert(after[k] == before[k] && after[m] == before[m - 1]);
                    } else if k < at && m < at {
                        assert(after[k] == before[k] && after[m] == before[m]);
                    } else if k < at {
                        assert(after[k] == before[k] && after[m] == x);
                    } else if k == at {
                        assert(after[k] == x && after[m] == before[m - 1]);
                    } else {
                        assert(after[k] == before[k - 1] && after[m] == before[m - 1]);
                    }
                }
                assert forall|t: Seq<char>| #[trigger] after.contains(t) <==> all.take(
                    i + 1,
                ).contains(t) by {
                    if before.contains(t) {
                        let k = before.index_of(t);
                        if k < at {
                            assert(after[k] == t);
                        } else {
                            assert(after[k + 1] == t);
                        }
                    }
                    if t == x {
                        assert(after[at as int] == t);
                    }
                    if after.contains(t) {
                        let k = after.index_of(t);
                        if k < at {
                            assert(before[k] == t);
                        } else if k > at {
                            assert(before[k - 1] == t);
                        }
                    }
                }
            }
        }
        i += 1;
    }
    assert(all.take(i as int) == all);
    r
}

/// There is only one way to put texts in order: lists in dictionary order that hold the same
/// texts are the same.
pub proof fn order_is_unique(a: Seq<Seq<char>>, b: Seq<Seq<char>>)
    requires
        increasing(a),
        increasing(b),
        forall|t: Seq<char>| #[trigger] a.contains(t) <==> b.contains(t),
    ensures
        a == b,
    decreases a.len(),
{
    if a.len() == 0 {
        if b.len() > 0 {
            assert(b.contains(b[0]));
            assert(a.contains(b[0]));
        }
        assert(a =~= b);
    } else {
        assert(a.contains(a.last()));
        let k = b.index_of(a.last());
        assert(b.contains(b.last())) by {
            assert(b[b.len() - 1] == b.last());
        }
        assert(a.contains(b.last()));
        let m = a.index_of(b.last());
        if m < a.len() - 1 {
            assert(less(a[m], a[a.len() - 1]));
            if k < b.len() - 1 {
                assert(less(b[k], b[b.len() - 1]));
                lemma_less_total(a.last(), b.last());
            } else {
                lemma_less_total(a.last(), b.last());
            }
        }
        assert(a.last() == b.last());
        let x = a.drop_last();
        let y = b.drop_last();
        assert forall|i: int, j: int| 0 <= i < j < x.len() implies less(
            #[trigger] x[i],
            #[trigger] x[j],
        ) by {
            assert(x[i] == a[i] && x[j] == a[j]);
        }
        assert forall|i: int, j: int| 0 <= i < j < y.len() implies less(
            #[trigger] y[i],
            #[trigger] y[j],
        ) by {
            assert(y[i] == b[i] && y[j] == b[j]);
        }
        assert forall|t: Seq<char>| #[trigger] x.contains(t) <==> y.contains(t) by {
            if x.contains(t) {
                let i = x.index_of(t);
                assert(a[i] == t);
                assert(less(a[i], a[a.len() - 1]));
                lemma_less_total(t, a.last());
                assert(a.contains(t));
                let j = b.index_of(t);
                assert(j < b.len() - 1);
                assert(y[j] == t);
            }
            if y.contains(t) {
                let i = y.index_of(t);
                assert(b[i] == t);
                assert(less(b[i], b[b.len() - 1]));
                lemma_less_total(t, b.last());
                assert(b.contains(t));
                assert(a.contains(t));
                let j = a.index_of(t);
                assert(j < a.len() - 1);
                assert(x[j] == t);
            }
        }
        order_is_unique(x, y);
        assert(a =~= x.push(a.last()));
        assert(b =~= y.push(b.last()));
    }
}

/// In dictionary order the first sign in which two texts differ decides, and a text comes before
/// every longer one that begins with it.
pub proof fn the_first_difference_decides(
    p: Seq<char>,
    x: char,
    s: Seq<char>,
    y: char,
    t: Seq<char>,
)
    requires
        x != y,
    ensures
        less(p + seq![x] + s, p + seq![y] + t) <==> x < y,
        less(p, p + seq![x] + s),
        !less(p, p),
    decreases p.len(),
{
    let a = p + seq![x] + s;
    let b = p + seq![y] + t;
    if p.len() == 0 {
        assert(a[0] == x && b[0] == y);
    } else {
        let q = p.drop_first();
        assert(a.drop_first() =~= q + seq![x] + s);
        assert(b.drop_first() =~= q + seq![y] + t);
        assert(a[0] == p[0] && b[0] == p[0]);
        the_first_difference_decides(q, x, s, y, t);
    }
}

} // verus!
