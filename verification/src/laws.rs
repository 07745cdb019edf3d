//! Properties of the preprocessing steps, stated over the model in `spans`.
use vstd::prelude::*;

use crate::models::AfkStatus;
use crate::spans::{
    active_spans, cut_piece, flood_spans, flood_state, flood_step, intersect_from,
    intersect_spans, lemma_whole_ms_bounds, max_int, min_int, not_afk_periods, whole_ms,
    PeriodView, SpanView,
};

verus! {

broadcast use vstd::seq_lib::group_seq_properties;

// ==================== Flood ====================

/// Between span `a` and the span `b` that follows it no micro-gap is left:
/// the gap, in whole milliseconds rounded toward zero, is not strictly
/// between zero and `pulse`, and when both carry the same data they are apart
/// by at least `pulse` (and do not overlap).
pub open spec fn gap_ok<D>(a: SpanView<D>, b: SpanView<D>, pulse: int) -> bool {
    let g = whole_ms(b.0 - a.1);
    &&& (g <= 0 || g >= pulse)
    &&& (a.2 == b.2 ==> g >= 0 && g >= pulse)
}

/// Every two consecutive spans of `s` satisfy `gap_ok`.
pub open spec fn gaps_closed<D>(s: Seq<SpanView<D>>, pulse: int) -> bool {
    forall|i: int| 0 <= i < s.len() - 1 ==> #[trigger] gap_ok(s[i], s[i + 1], pulse)
}

/// Every span starts and ends on a whole millisecond.
pub open spec fn ms_aligned<D>(s: Seq<SpanView<D>>) -> bool {
    forall|i: int| 0 <= i < s.len() ==> (#[trigger] s[i]).0 % 1_000_000 == 0 && s[i].1 % 1_000_000 == 0
}

proof fn lemma_whole_ms_of_aligned(d: int)
    requires
        d % 1_000_000 == 0,
    ensures
        whole_ms(d) * 1_000_000 == d,
{
    lemma_whole_ms_bounds(d);
}

/// On spans that start and end on whole milliseconds, the current span of
/// flooding does too.
proof fn lemma_flood_state_aligned<D>(s: Seq<SpanView<D>>, n: nat, pulse: int)
    requires
        ms_aligned(s),
        1 <= n <= s.len(),
    ensures
        flood_state(s, n, pulse).1.0 % 1_000_000 == 0,
        flood_state(s, n, pulse).1.1 % 1_000_000 == 0,
    decreases n,
{
    if n > 1 {
        lemma_flood_state_aligned(s, (n - 1) as nat, pulse);
        let cur = flood_state(s, (n - 1) as nat, pulse).1;
        let next = s[n - 1];
        assert(next.0 % 1_000_000 == 0 && next.1 % 1_000_000 == 0);
        lemma_whole_ms_of_aligned(max_int(cur.1, next.1) - cur.0);
        lemma_whole_ms_of_aligned(next.1 - cur.0);
        lemma_whole_ms_bounds(next.0 - cur.1);
        let g = whole_ms(next.0 - cur.1);
        assert((next.0 - (g / 2) * 1_000_000) % 1_000_000 == 0) by (nonlinear_arith)
            requires
                next.0 % 1_000_000 == 0,
        ;
    } else {
        assert(s[0].0 % 1_000_000 == 0);
    }
}

proof fn lemma_flood_state_gaps<D>(s: Seq<SpanView<D>>, n: nat, pulse: int)
    requires
        ms_aligned(s),
        1 <= n <= s.len(),
    ensures
        gaps_closed(flood_state(s, n, pulse).0.push(flood_state(s, n, pulse).1), pulse),
    decreases n,
{
    if n > 1 {
        lemma_flood_state_gaps(s, (n - 1) as nat, pulse);
        lemma_flood_state_aligned(s, (n - 1) as nat, pulse);
        let st = flood_state(s, (n - 1) as nat, pulse);
        let done = st.0;
        let cur = st.1;
        let next = s[n - 1];
        let old = done.push(cur);
        let new = flood_state(s, n, pulse).0.push(flood_state(s, n, pulse).1);
        assert(next.0 % 1_000_000 == 0);
        lemma_whole_ms_bounds(next.0 - cur.1);
        let gap = whole_ms(next.0 - cur.1);
        let same = cur.2 == next.2;
        if 0 < gap < pulse && !same {
            lemma_whole_ms_of_aligned(next.0 - cur.1);
            let rest = (next.0 - (gap / 2) * 1_000_000) - (cur.1 + gap * 500_000);
            assert(0 <= rest < 1_000_000) by (nonlinear_arith)
                requires
                    gap * 1_000_000 == next.0 - cur.1,
                    gap > 0,
                    rest == (next.0 - (gap / 2) * 1_000_000) - (cur.1 + gap * 500_000),
            ;
            lemma_whole_ms_bounds(rest);
            assert(gap_ok(new[new.len() - 2], new[new.len() - 1], pulse));
        }
        assert forall|i: int| 0 <= i < new.len() - 1 implies #[trigger] gap_ok(
            new[i],
            new[i + 1],
            pulse,
        ) by {
            if i < old.len() - 1 {
                assert(gap_ok(old[i], old[i + 1], pulse));
            }
        }
    }
}

proof fn lemma_flood_state_prefix<D>(s: Seq<SpanView<D>>, x: SpanView<D>, n: nat, pulse: int)
    requires
        1 <= n <= s.len(),
    ensures
        flood_state(s.push(x), n, pulse) == flood_state(s, n, pulse),
    decreases n,
{
    assert(s.push(x)[n - 1] == s[n - 1]);
    if n > 1 {
        lemma_flood_state_prefix(s, x, (n - 1) as nat, pulse);
    }
}

/// Flooding one span gives that span.
pub proof fn flood_of_one<D>(x: SpanView<D>, pulse: int)
    ensures
        flood_spans(seq![x], pulse) == seq![x],
        flood_spans(Seq::<SpanView<D>>::empty(), pulse) == Seq::<SpanView<D>>::empty(),
{
    assert(Seq::<SpanView<D>>::empty().push(x) == seq![x]);
}

/// What one more span `x` does to a flooded sequence, whose last span is `c`;
/// the gap `g` from the end of `c` to the start of `x` is measured in whole
/// milliseconds, rounded toward zero:
///
/// - same data, overlap (`g < 0`): `c` is extended to the later of the two
///   ends, its length rounded down to whole milliseconds, and `x` is
///   absorbed;
/// - same data, `0 <= g < pulse`: `c` is extended to the end of `x`, its
///   length rounded down to whole milliseconds, and `x` is absorbed;
/// - other data, `0 < g < pulse`: the gap is split 50/50: `c` ends exactly
///   `g / 2` milliseconds later, and `x` starts `g / 2` milliseconds, rounded
///   down to whole milliseconds, earlier, keeping its end;
/// - otherwise `x` is added unchanged after `c`.
pub proof fn flood_one_more<D>(s: Seq<SpanView<D>>, x: SpanView<D>, pulse: int)
    requires
        s.len() > 0,
    ensures
        ({
            let f = flood_spans(s, pulse);
            let c = f.last();
            let before = f.drop_last();
            let g = whole_ms(x.0 - c.1);
            let r = flood_spans(s.push(x), pulse);
            &&& f.len() > 0
            &&& (c.2 == x.2 && g < 0) ==> r == before.push(
                (c.0, c.0 + whole_ms(max_int(c.1, x.1) - c.0) * 1_000_000, c.2),
            )
            &&& (c.2 == x.2 && 0 <= g < pulse) ==> r == before.push(
                (c.0, c.0 + whole_ms(x.1 - c.0) * 1_000_000, c.2),
            )
            &&& (c.2 != x.2 && 0 < g < pulse) ==> r == before.push(
                (c.0, c.1 + g * 500_000, c.2),
            ).push((x.0 - (g / 2) * 1_000_000, x.1, x.2))
            &&& ((c.2 == x.2 && g >= 0 && g >= pulse) || (c.2 != x.2 && (g <= 0 || g >= pulse)))
                ==> r == f.push(x)
        }),
{
    let n = s.len();
    lemma_flood_state_prefix(s, x, n, pulse);
    let st = flood_state(s, n, pulse);
    let f = flood_spans(s, pulse);
    assert(f.last() == st.1);
    assert(f.drop_last() == st.0);
    assert(s.push(x)[n as int] == x);
    assert(flood_state(s.push(x), n + 1, pulse) == flood_step(st.0, st.1, x, pulse));
    let r = flood_spans(s.push(x), pulse);
    let st2 = flood_step(st.0, st.1, x, pulse);
    assert(r == st2.0.push(st2.1));
    let c = f.last();
    let before = f.drop_last();
    let g = whole_ms(x.0 - c.1);
    assert(f.len() > 0);
    if c.2 == x.2 && g < 0 {
        assert(r == before.push((c.0, c.0 + whole_ms(max_int(c.1, x.1) - c.0) * 1_000_000, c.2)));
    } else if c.2 == x.2 && 0 <= g < pulse {
        assert(r == before.push((c.0, c.0 + whole_ms(x.1 - c.0) * 1_000_000, c.2)));
    } else if c.2 != x.2 && 0 < g < pulse {
        assert(r == before.push((c.0, c.1 + g * 500_000, c.2)).push(
            (x.0 - (g / 2) * 1_000_000, x.1, x.2),
        ));
    } else {
        assert(f == st.0.push(st.1));
        assert(r == f.push(x));
    }
}

/// Flooding leaves no micro-gap: when every span starts and ends on a whole
/// millisecond, between two consecutive flooded spans the gap is either not
/// positive or at least `pulse`, and two consecutive flooded spans with the
/// same data are apart by at least `pulse`.
pub proof fn flood_closes_gaps<D>(s: Seq<SpanView<D>>, pulse: int)
    requires
        ms_aligned(s),
    ensures
        gaps_closed(flood_spans(s, pulse), pulse),
{
    if s.len() > 0 {
        lemma_flood_state_gaps(s, s.len(), pulse);
    }
}

proof fn lemma_flood_state_of_closed<D>(t: Seq<SpanView<D>>, n: nat, pulse: int)
    requires
        gaps_closed(t, pulse),
        1 <= n <= t.len(),
    ensures
        flood_state(t, n, pulse) == (t.take(n - 1), t[n - 1]),
    decreases n,
{
    if n > 1 {
        lemma_flood_state_of_closed(t, (n - 1) as nat, pulse);
        let i = n - 2;
        assert(gap_ok(t[i], t[i + 1], pulse));
        assert(i + 1 == n - 1);
        assert(t.take(n - 2).push(t[n - 2]) == t.take(n - 1));
    } else {
        assert(t.take(0) == Seq::<SpanView<D>>::empty());
    }
}

/// Flooding is idempotent on spans that start and end on whole
/// milliseconds: flooding the flooded sequence again changes nothing.
pub proof fn flood_is_idempotent<D>(s: Seq<SpanView<D>>, pulse: int)
    requires
        ms_aligned(s),
    ensures
        flood_spans(flood_spans(s, pulse), pulse) == flood_spans(s, pulse),
{
    flood_closes_gaps(s, pulse);
    let t = flood_spans(s, pulse);
    if t.len() > 0 {
        lemma_flood_state_of_closed(t, t.len(), pulse);
        assert(t.take(t.len() - 1).push(t[t.len() - 1]) == t);
    }
}

/// The flooded spans after the first `n` inputs: the finished ones followed
/// by the current one.
spec fn flooded_upto<D>(s: Seq<SpanView<D>>, n: nat, pulse: int) -> Seq<SpanView<D>> {
    flood_state(s, n, pulse).0.push(flood_state(s, n, pulse).1)
}

proof fn lemma_flood_state_shape<D>(s: Seq<SpanView<D>>, n: nat, pulse: int)
    requires
        1 <= n <= s.len(),
    ensures
        flooded_upto(s, n, pulse).len() <= n,
        flooded_upto(s, n, pulse)[0].0 == s[0].0,
        forall|k: int|
            0 <= k < flooded_upto(s, n, pulse).len() ==> exists|j: int|
                0 <= j < n && s[j].2 == (#[trigger] flooded_upto(s, n, pulse)[k]).2,
    decreases n,
{
    if n > 1 {
        lemma_flood_state_shape(s, (n - 1) as nat, pulse);
        let old = flooded_upto(s, (n - 1) as nat, pulse);
        let new = flooded_upto(s, n, pulse);
        assert forall|k: int| 0 <= k < new.len() implies exists|j: int|
            0 <= j < n && s[j].2 == (#[trigger] new[k]).2 by {
            if k < old.len() && new[k].2 == old[k].2 {
                let j = choose|j: int| 0 <= j < n - 1 && s[j].2 == (#[trigger] old[k]).2;
                assert(s[j].2 == new[k].2);
            } else {
                assert(s[n - 1].2 == new[k].2);
            }
        }
    } else {
        assert(s[0].2 == flooded_upto(s, n, pulse)[0].2);
    }
}

/// Flooding never adds spans: the flooded sequence is no longer than the
/// input, and empty exactly when the input is.
pub proof fn flood_never_grows<D>(s: Seq<SpanView<D>>, pulse: int)
    ensures
        flood_spans(s, pulse).len() <= s.len(),
        flood_spans(s, pulse).len() == 0 <==> s.len() == 0,
{
    if s.len() > 0 {
        lemma_flood_state_shape(s, s.len(), pulse);
    }
}

/// Flooding keeps where the first span starts.
pub proof fn flood_keeps_first_start<D>(s: Seq<SpanView<D>>, pulse: int)
    requires
        s.len() > 0,
    ensures
        flood_spans(s, pulse)[0].0 == s[0].0,
{
    lemma_flood_state_shape(s, s.len(), pulse);
}

/// Flooding invents no data: every flooded span carries the data of some
/// input span.
pub proof fn flood_invents_no_data<D>(s: Seq<SpanView<D>>, pulse: int)
    ensures
        forall|k: int|
            0 <= k < flood_spans(s, pulse).len() ==> exists|j: int|
                0 <= j < s.len() && s[j].2 == (#[trigger] flood_spans(s, pulse)[k]).2,
{
    if s.len() > 0 {
        lemma_flood_state_shape(s, s.len(), pulse);
        assert(flood_spans(s, pulse) == flooded_upto(s, s.len(), pulse));
    }
}

/// Span `inner` lies inside span `outer`, and both carry the same data.
pub open spec fn span_within<D>(inner: SpanView<D>, outer: SpanView<D>) -> bool {
    &&& outer.0 <= inner.0
    &&& inner.1 <= outer.1
    &&& outer.2 == inner.2
}

/// Each span has no negative length, and no span starts before an earlier
/// one (spans may overlap).
pub open spec fn starts_sorted<D>(s: Seq<SpanView<D>>) -> bool {
    &&& forall|i: int| 0 <= i < s.len() ==> (#[trigger] s[i]).0 <= s[i].1
    &&& forall|i: int, j: int| #![trigger s[i], s[j]] 0 <= i < j < s.len() ==> s[i].0 <= s[j].0
}

#[verifier::rlimit(30)]
proof fn lemma_flood_step_grows<D>(
    done: Seq<SpanView<D>>,
    cur: SpanView<D>,
    next: SpanView<D>,
    pulse: int,
)
    requires
        cur.0 <= next.0,
        next.0 <= next.1,
        cur.0 % 1_000_000 == 0,
        cur.1 % 1_000_000 == 0,
        next.0 % 1_000_000 == 0,
        next.1 % 1_000_000 == 0,
    ensures
        ({
            let old = done.push(cur);
            let st = flood_step(done, cur, next, pulse);
            let new = st.0.push(st.1);
            &&& old.len() <= new.len()
            &&& forall|k: int| 0 <= k < old.len() ==> span_within(old[k], #[trigger] new[k])
            &&& span_within(next, new.last())
            &&& new.last().0 <= next.0
        }),
{
    let old = done.push(cur);
    let st = flood_step(done, cur, next, pulse);
    let new = st.0.push(st.1);
    lemma_whole_ms_of_aligned(max_int(cur.1, next.1) - cur.0);
    lemma_whole_ms_of_aligned(next.1 - cur.0);
    lemma_whole_ms_of_aligned(next.0 - cur.1);
    lemma_whole_ms_bounds(next.0 - cur.1);
    assert forall|k: int| 0 <= k < old.len() implies span_within(old[k], #[trigger] new[k]) by {
        if k < old.len() - 1 {
            assert(new[k] == old[k]);
        }
    }
}

proof fn lemma_flood_state_covers<D>(s: Seq<SpanView<D>>, n: nat, pulse: int)
    requires
        starts_sorted(s),
        ms_aligned(s),
        1 <= n <= s.len(),
    ensures
        flooded_upto(s, n, pulse).last().0 <= s[n - 1].0,
        forall|j: int|
            0 <= j < n ==> exists|k: int|
                0 <= k < flooded_upto(s, n, pulse).len() && span_within(
                    #[trigger] s[j],
                    flooded_upto(s, n, pulse)[k],
                ),
    decreases n,
{
    if n > 1 {
        lemma_flood_state_covers(s, (n - 1) as nat, pulse);
        lemma_flood_state_aligned(s, (n - 1) as nat, pulse);
        let st = flood_state(s, (n - 1) as nat, pulse);
        let old = flooded_upto(s, (n - 1) as nat, pulse);
        let new = flooded_upto(s, n, pulse);
        assert(old.last() == st.1);
        assert(s[n - 2].0 <= s[n - 1].0);
        assert(s[n - 1].0 <= s[n - 1].1);
        assert(s[n - 1].0 % 1_000_000 == 0 && s[n - 1].1 % 1_000_000 == 0);
        lemma_flood_step_grows(st.0, st.1, s[n - 1], pulse);
        assert forall|j: int| 0 <= j < n implies exists|k: int|
            0 <= k < new.len() && span_within(#[trigger] s[j], new[k]) by {
            if j < n - 1 {
                let k = choose|k: int| 0 <= k < old.len() && span_within(#[trigger] s[j], old[k]);
                assert(span_within(old[k], new[k]));
                assert(span_within(s[j], new[k]));
            } else {
                assert(span_within(s[j], new[new.len() - 1]));
            }
        }
    } else {
        assert(span_within(s[0], flooded_upto(s, n, pulse)[0]));
    }
}

/// Flooding removes no activity: when no span starts before an earlier one,
/// none has negative length and all start and end on whole milliseconds,
/// every input span lies inside a flooded span that carries the same data.
pub proof fn flood_removes_no_activity<D>(s: Seq<SpanView<D>>, pulse: int)
    requires
        starts_sorted(s),
        ms_aligned(s),
    ensures
        forall|j: int|
            0 <= j < s.len() ==> exists|k: int|
                0 <= k < flood_spans(s, pulse).len() && span_within(
                    #[trigger] s[j],
                    flood_spans(s, pulse)[k],
                ),
{
    if s.len() > 0 {
        lemma_flood_state_covers(s, s.len(), pulse);
        assert(flood_spans(s, pulse) == flooded_upto(s, s.len(), pulse));
    }
}

// ==================== Sortedness ====================

/// Each span has no negative length, and each ends no later than every
/// later span starts.
pub open spec fn spans_sorted_disjoint<D>(s: Seq<SpanView<D>>) -> bool {
    &&& forall|i: int| 0 <= i < s.len() ==> (#[trigger] s[i]).0 <= s[i].1
    &&& forall|i: int, j: int| #![trigger s[i], s[j]] 0 <= i < j < s.len() ==> s[i].1 <= s[j].0
}

proof fn lemma_flood_state_sorted<D>(s: Seq<SpanView<D>>, n: nat, pulse: int)
    requires
        spans_sorted_disjoint(s),
        1 <= n <= s.len(),
    ensures
        spans_sorted_disjoint(flood_state(s, n, pulse).0.push(flood_state(s, n, pulse).1)),
        flood_state(s, n, pulse).1.1 <= s[n - 1].1,
    decreases n,
{
    if n > 1 {
        lemma_flood_state_sorted(s, (n - 1) as nat, pulse);
        let st = flood_state(s, (n - 1) as nat, pulse);
        let done = st.0;
        let cur = st.1;
        let next = s[n - 1];
        let old = done.push(cur);
        let new = flood_state(s, n, pulse).0.push(flood_state(s, n, pulse).1);
        assert(s[n - 2].1 <= s[n - 1].0);
        assert(next.0 <= next.1);
        lemma_whole_ms_bounds(next.0 - cur.1);
        lemma_whole_ms_bounds(next.1 - cur.0);
        lemma_whole_ms_bounds(max_int(cur.1, next.1) - cur.0);
        let g = whole_ms(next.0 - cur.1);
        if g > 0 {
            assert(g * 500_000 + (g / 2) * 1_000_000 <= g * 1_000_000) by (nonlinear_arith)
                requires
                    g > 0,
            ;
        }
        assert(cur.0 <= cur.1) by {
            assert(old[old.len() - 1] == cur);
        }
        assert forall|k: int| 0 <= k < done.len() implies (#[trigger] done[k]).1 <= cur.0 by {
            assert(old[k] == done[k]);
            assert(old[old.len() - 1] == cur);
        }
        assert forall|i: int| 0 <= i < new.len() implies (#[trigger] new[i]).0 <= new[i].1 by {
            if i < done.len() {
                assert(old[i] == done[i]);
            }
        }
        assert forall|i: int, j: int|
            #![trigger new[i], new[j]]
            0 <= i < j < new.len() implies new[i].1 <= new[j].0 by {
            if j < done.len() {
                assert(old[i] == new[i] && old[j] == new[j]);
            } else if i < done.len() {
                assert(done[i] == new[i]);
            }
        }
    }
}

/// Flooding keeps a sorted, non-overlapping sequence sorted and
/// non-overlapping.
pub proof fn flood_keeps_sorted_disjoint<D>(s: Seq<SpanView<D>>, pulse: int)
    requires
        spans_sorted_disjoint(s),
    ensures
        spans_sorted_disjoint(flood_spans(s, pulse)),
{
    if s.len() > 0 {
        lemma_flood_state_sorted(s, s.len(), pulse);
    }
}

// ==================== Filter by periods ====================

/// The pieces of span `e` inside each period of `periods`, in the order of
/// the periods; pieces of no positive length are left out.
pub open spec fn pieces_of<D>(e: SpanView<D>, periods: Seq<PeriodView>) -> Seq<SpanView<D>>
    decreases periods.len(),
{
    if periods.len() == 0 {
        Seq::empty()
    } else {
        cut_piece(e.0, e, periods[0]) + pieces_of(e, periods.drop_first())
    }
}

/// For each event in order, its pieces inside each of the periods.
pub open spec fn all_pieces<D>(events: Seq<SpanView<D>>, periods: Seq<PeriodView>) -> Seq<
    SpanView<D>,
>
    decreases events.len(),
{
    if events.len() == 0 {
        Seq::empty()
    } else {
        pieces_of(events[0], periods) + all_pieces(events.drop_first(), periods)
    }
}

/// Each period has no negative length, and each ends no later than every
/// later period starts.
pub open spec fn periods_sorted_disjoint(p: Seq<PeriodView>) -> bool {
    &&& forall|i: int| 0 <= i < p.len() ==> (#[trigger] p[i]).0 <= p[i].1
    &&& forall|i: int, j: int| #![trigger p[i], p[j]] 0 <= i < j < p.len() ==> p[i].1 <= p[j].0
}

proof fn lemma_pieces_of_none<D>(e: SpanView<D>, q: Seq<PeriodView>)
    requires
        forall|k: int| 0 <= k < q.len() ==> cut_piece(e.0, e, #[trigger] q[k]).len() == 0,
    ensures
        pieces_of(e, q) == Seq::<SpanView<D>>::empty(),
    decreases q.len(),
{
    if q.len() > 0 {
        assert(cut_piece(e.0, e, q[0]).len() == 0);
        assert forall|k: int| 0 <= k < q.drop_first().len() implies cut_piece(
            e.0,
            e,
            #[trigger] q.drop_first()[k],
        ).len() == 0 by {
            assert(q.drop_first()[k] == q[k + 1]);
        }
        lemma_pieces_of_none(e, q.drop_first());
        assert(cut_piece(e.0, e, q[0]) + pieces_of(e, q.drop_first()) == Seq::<
            SpanView<D>,
        >::empty());
    }
}

proof fn lemma_all_pieces_no_periods<D>(x: Seq<SpanView<D>>, q: Seq<PeriodView>)
    requires
        q.len() == 0,
    ensures
        all_pieces(x, q) == Seq::<SpanView<D>>::empty(),
    decreases x.len(),
{
    if x.len() > 0 {
        lemma_all_pieces_no_periods(x.drop_first(), q);
        assert(pieces_of(x[0], q) + all_pieces(x.drop_first(), q) == Seq::<SpanView<D>>::empty());
    }
}

proof fn lemma_all_pieces_drop_dead_period<D>(x: Seq<SpanView<D>>, q: Seq<PeriodView>)
    requires
        q.len() > 0,
        forall|k: int| 0 <= k < x.len() ==> cut_piece((#[trigger] x[k]).0, x[k], q[0]).len() == 0,
    ensures
        all_pieces(x, q) == all_pieces(x, q.drop_first()),
    decreases x.len(),
{
    if x.len() > 0 {
        assert(cut_piece(x[0].0, x[0], q[0]).len() == 0);
        assert(cut_piece(x[0].0, x[0], q[0]) == Seq::<SpanView<D>>::empty());
        assert(pieces_of(x[0], q) == pieces_of(x[0], q.drop_first()));
        assert forall|k: int| 0 <= k < x.drop_first().len() implies cut_piece(
            (#[trigger] x.drop_first()[k]).0,
            x.drop_first()[k],
            q[0],
        ).len() == 0 by {
            assert(x.drop_first()[k] == x[k + 1]);
        }
        lemma_all_pieces_drop_dead_period(x.drop_first(), q);
    }
}

proof fn lemma_all_pieces_unfold<D>(e: Seq<SpanView<D>>, q: Seq<PeriodView>, ei: int)
    requires
        0 <= ei < e.len(),
    ensures
        all_pieces(e.skip(ei), q) == pieces_of(e[ei], q) + all_pieces(e.skip(ei + 1), q),
{
    assert(e.skip(ei).len() > 0);
    assert(e.skip(ei)[0] == e[ei]);
    assert(e.skip(ei).drop_first() == e.skip(ei + 1));
}

proof fn lemma_pieces_of_unfold<D>(x: SpanView<D>, p: Seq<PeriodView>, pi: int)
    requires
        0 <= pi < p.len(),
    ensures
        pieces_of(x, p.skip(pi)) == cut_piece(x.0, x, p[pi]) + pieces_of(x, p.skip(pi + 1)),
{
    assert(p.skip(pi).len() > 0);
    assert(p.skip(pi)[0] == p[pi]);
    assert(p.skip(pi).drop_first() == p.skip(pi + 1));
}

/// The walk from `(ei, pi, from)` gives exactly the pieces of the remaining
/// events inside the remaining periods.
proof fn lemma_intersect_from_exact<D>(
    e: Seq<SpanView<D>>,
    p: Seq<PeriodView>,
    ei: int,
    pi: int,
    from: int,
)
    requires
        starts_sorted(e),
        no_crossing(e, p),
        periods_sorted_disjoint(p),
        0 <= ei <= e.len(),
        0 <= pi <= p.len(),
        ei < e.len() ==> e[ei].0 <= from <= e[ei].1,
        ei < e.len() ==> (from == e[ei].0 || (pi < p.len() ==> from <= p[pi].0)),
    ensures
        intersect_from(e, p, ei, pi, from) == all_pieces(e.skip(ei), p.skip(pi)),
    decreases e.len() - ei + p.len() - pi,
{
    if ei == e.len() {
        assert(e.skip(ei) == Seq::<SpanView<D>>::empty());
    } else if pi == p.len() {
        lemma_all_pieces_no_periods(e.skip(ei), p.skip(pi));
    } else {
        let x = e[ei];
        let q = p[pi];
        assert(x.0 <= x.1);
        assert(q.0 <= q.1);
        lemma_all_pieces_unfold(e, p.skip(pi), ei);
        lemma_pieces_of_unfold(x, p, pi);
        if x.1 <= q.0 {
            if ei + 1 < e.len() {
                assert(e[ei + 1].0 <= e[ei + 1].1);
            }
            lemma_intersect_from_exact(e, p, ei + 1, pi, e[ei + 1].0);
            assert forall|k: int| 0 <= k < p.skip(pi).len() implies cut_piece(
                x.0,
                x,
                #[trigger] p.skip(pi)[k],
            ).len() == 0 by {
                assert(p.skip(pi)[k] == p[pi + k]);
                if k > 0 {
                    assert(p[pi].1 <= p[pi + k].0);
                }
            }
            lemma_pieces_of_none(x, p.skip(pi));
            assert(pieces_of(x, p.skip(pi)) + all_pieces(e.skip(ei + 1), p.skip(pi)) == all_pieces(
                e.skip(ei + 1),
                p.skip(pi),
            ));
        } else if q.1 <= from {
            if from != x.0 && pi + 1 < p.len() {
                assert(q.1 <= p[pi + 1].0);
            }
            lemma_intersect_from_exact(e, p, ei, pi + 1, from);
            assert forall|k: int| 0 <= k < e.skip(ei).len() implies cut_piece(
                (#[trigger] e.skip(ei)[k]).0,
                e.skip(ei)[k],
                p.skip(pi)[0],
            ).len() == 0 by {
                assert(e.skip(ei)[k] == e[ei + k]);
                assert(p.skip(pi)[0] == q);
                if k > 0 {
                    assert(e[ei].0 <= e[ei + k].0);
                }
            }
            lemma_all_pieces_drop_dead_period(e.skip(ei), p.skip(pi));
            assert(p.skip(pi).drop_first() == p.skip(pi + 1));
        } else if x.1 <= q.1 {
            if ei + 1 < e.len() {
                assert(e[ei + 1].0 <= e[ei + 1].1);
            }
            lemma_intersect_from_exact(e, p, ei + 1, pi, e[ei + 1].0);
            assert forall|k: int| 0 <= k < p.skip(pi + 1).len() implies cut_piece(
                x.0,
                x,
                #[trigger] p.skip(pi + 1)[k],
            ).len() == 0 by {
                assert(p.skip(pi + 1)[k] == p[pi + 1 + k]);
                assert(p[pi].1 <= p[pi + 1 + k].0);
            }
            lemma_pieces_of_none(x, p.skip(pi + 1));
            assert(cut_piece(from, x, q) == cut_piece(x.0, x, q));
            assert(cut_piece(x.0, x, q) + Seq::<SpanView<D>>::empty() == cut_piece(x.0, x, q));
        } else {
            if pi + 1 < p.len() {
                assert(q.1 <= p[pi + 1].0);
            }
            lemma_intersect_from_exact(e, p, ei, pi + 1, q.1);
            lemma_all_pieces_unfold(e, p.skip(pi + 1), ei);
            assert forall|k: int| 0 <= k < e.skip(ei + 1).len() implies cut_piece(
                (#[trigger] e.skip(ei + 1)[k]).0,
                e.skip(ei + 1)[k],
                p.skip(pi)[0],
            ).len() == 0 by {
                assert(e.skip(ei + 1)[k] == e[ei + 1 + k]);
                assert(p.skip(pi)[0] == q);
                assert(p[pi].1 <= e[ei + 1 + k].0) by {
                    assert(e[ei].0 < p[pi].1 < e[ei].1);
                    let j = ei + 1 + k;
                    assert(e[ei] == x && e[j] == e[ei + 1 + k]);
                }
            }
            lemma_all_pieces_drop_dead_period(e.skip(ei + 1), p.skip(pi));
            assert(p.skip(pi).drop_first() == p.skip(pi + 1));
            assert(cut_piece(from, x, q) == cut_piece(x.0, x, q));
            let a = cut_piece(x.0, x, q);
            let b = pieces_of(x, p.skip(pi + 1));
            let c = all_pieces(e.skip(ei + 1), p.skip(pi + 1));
            assert(a + (b + c) == (a + b) + c);
        }
    }
}

/// No event crosses the end of a period that a later event starts before:
/// whenever event `i` starts before the end of period `k` and ends after it,
/// every later event starts at or after that end. Events that do not overlap
/// each other satisfy this with any periods.
pub open spec fn no_crossing<D>(events: Seq<SpanView<D>>, periods: Seq<PeriodView>) -> bool {
    forall|i: int, j: int, k: int|
        #![trigger events[i], events[j], periods[k]]
        0 <= i < j < events.len() && 0 <= k < periods.len() && events[i].0 < periods[k].1
            < events[i].1 ==> periods[k].1 <= events[j].0
}

/// The two-pointer walk of `filter_period_intersect` gives exactly the
/// pieces of every event inside every period, event by event and period by
/// period, when the events are sorted by start (they may overlap), the
/// periods are sorted and do not overlap, and no event crosses the end of a
/// period that a later event starts before.
pub proof fn intersect_keeps_every_piece<D>(events: Seq<SpanView<D>>, periods: Seq<PeriodView>)
    requires
        starts_sorted(events),
        no_crossing(events, periods),
        periods_sorted_disjoint(periods),
    ensures
        intersect_spans(events, periods) == all_pieces(events, periods),
{
    if periods.len() == 0 {
        lemma_all_pieces_no_periods(events, periods);
    } else if events.len() > 0 {
        assert(events[0].0 <= events[0].1);
        lemma_intersect_from_exact(events, periods, 0, 0, events[0].0);
        assert(events.skip(0) == events);
        assert(periods.skip(0) == periods);
    }
}

/// On sorted, non-overlapping events and periods, the two-pointer walk of
/// `filter_period_intersect` gives exactly the pieces of every event inside
/// every period, event by event and period by period.
pub proof fn intersect_is_all_pieces<D>(events: Seq<SpanView<D>>, periods: Seq<PeriodView>)
    requires
        spans_sorted_disjoint(events),
        periods_sorted_disjoint(periods),
    ensures
        intersect_spans(events, periods) == all_pieces(events, periods),
{
    assert forall|i: int, j: int| #![trigger events[i], events[j]] 0 <= i < j < events.len() implies events[i].0 <= events[j].0 by {
        assert(events[i].0 <= events[i].1);
    }
    assert forall|i: int, j: int, k: int|
        #![trigger events[i], events[j], periods[k]]
        0 <= i < j < events.len() && 0 <= k < periods.len() && events[i].0 < periods[k].1
            < events[i].1 implies periods[k].1 <= events[j].0 by {
        assert(events[i].1 <= events[j].0);
    }
    intersect_keeps_every_piece(events, periods);
}

/// `x` has positive length and lies inside an event that carries the same
/// data, and inside a period.
pub open spec fn piece_inside<D>(
    x: SpanView<D>,
    events: Seq<SpanView<D>>,
    periods: Seq<PeriodView>,
) -> bool {
    &&& x.0 < x.1
    &&& exists|i: int|
        0 <= i < events.len() && (#[trigger] events[i]).2 == x.2 && events[i].0 <= x.0 && x.1
            <= events[i].1
    &&& exists|j: int|
        0 <= j < periods.len() && (#[trigger] periods[j]).0 <= x.0 && x.1 <= periods[j].1
}

proof fn lemma_intersect_from_inside<D>(
    e: Seq<SpanView<D>>,
    p: Seq<PeriodView>,
    ei: int,
    pi: int,
    from: int,
)
    requires
        0 <= ei,
        0 <= pi,
        ei < e.len() ==> e[ei].0 <= from,
    ensures
        forall|k: int|
            0 <= k < intersect_from(e, p, ei, pi, from).len() ==> piece_inside(
                #[trigger] intersect_from(e, p, ei, pi, from)[k],
                e,
                p,
            ),
    decreases e.len() - ei + p.len() - pi,
{
    if ei < e.len() && pi < p.len() {
        let x = e[ei];
        let q = p[pi];
        let out = intersect_from(e, p, ei, pi, from);
        if x.1 <= q.0 {
            lemma_intersect_from_inside(e, p, ei + 1, pi, e[ei + 1].0);
            assert(out == intersect_from(e, p, ei + 1, pi, e[ei + 1].0));
        } else if q.1 <= from {
            lemma_intersect_from_inside(e, p, ei, pi + 1, from);
            assert(out == intersect_from(e, p, ei, pi + 1, from));
        } else {
            let piece = cut_piece(from, x, q);
            let rest = if x.1 <= q.1 {
                intersect_from(e, p, ei + 1, pi, e[ei + 1].0)
            } else {
                intersect_from(e, p, ei, pi + 1, q.1)
            };
            if x.1 <= q.1 {
                lemma_intersect_from_inside(e, p, ei + 1, pi, e[ei + 1].0);
            } else {
                lemma_intersect_from_inside(e, p, ei, pi + 1, q.1);
            }
            assert(out == piece + rest);
            assert forall|k: int| 0 <= k < out.len() implies piece_inside(
                #[trigger] out[k],
                e,
                p,
            ) by {
                if k < piece.len() {
                    let a = max_int(from, q.0);
                    let b = min_int(x.1, q.1);
                    lemma_whole_ms_bounds(b - a);
                    assert(out[k] == (a, a + whole_ms(b - a) * 1_000_000, x.2));
                    assert(e[ei] == x);
                    assert(p[pi] == q);
                } else {
                    assert(out[k] == rest[k - piece.len()]);
                }
            }
        }
    }
}

/// Every piece that `filter_period_intersect` gives has positive length and
/// lies inside an event with the same data and inside a period, whatever
/// the order of the events and periods.
pub proof fn intersect_pieces_are_inside<D>(events: Seq<SpanView<D>>, periods: Seq<PeriodView>)
    ensures
        forall|k: int|
            0 <= k < intersect_spans(events, periods).len() ==> piece_inside(
                #[trigger] intersect_spans(events, periods)[k],
                events,
                periods,
            ),
{
    if events.len() > 0 && periods.len() > 0 {
        lemma_intersect_from_inside(events, periods, 0, 0, events[0].0);
    }
}

// ==================== Not-AFK periods ====================

/// `r` is the extent of a span of `s` whose status is `NotAfk`.
pub open spec fn from_not_afk_span(r: PeriodView, s: Seq<SpanView<AfkStatus>>) -> bool {
    exists|j: int|
        0 <= j < s.len() && (#[trigger] s[j]).2 == AfkStatus::NotAfk && r == (s[j].0, s[j].1)
}

/// Every not-AFK period is the extent of an AFK span whose status is
/// `NotAfk`; and when the AFK spans are sorted and do not overlap, neither do
/// the periods.
pub proof fn not_afk_periods_come_from_spans(s: Seq<SpanView<AfkStatus>>)
    ensures
        forall|k: int|
            0 <= k < not_afk_periods(s).len() ==> from_not_afk_span(
                #[trigger] not_afk_periods(s)[k],
                s,
            ),
        spans_sorted_disjoint(s) ==> periods_sorted_disjoint(not_afk_periods(s)),
    decreases s.len(),
{
    if s.len() > 0 {
        let init = s.drop_last();
        not_afk_periods_come_from_spans(init);
        let r0 = not_afk_periods(init);
        let r = not_afk_periods(s);
        assert forall|k: int| 0 <= k < r.len() implies from_not_afk_span(#[trigger] r[k], s) by {
            if k < r0.len() {
                assert(r[k] == r0[k]);
                assert(from_not_afk_span(r0[k], init));
                let j = choose|j: int|
                    0 <= j < init.len() && (#[trigger] init[j]).2 == AfkStatus::NotAfk && r0[k] == (
                        init[j].0,
                        init[j].1,
                    );
                assert(s[j] == init[j]);
            } else {
                assert(s[s.len() - 1] == s.last());
            }
        }
        if spans_sorted_disjoint(s) {
            assert(spans_sorted_disjoint(init)) by {
                assert forall|i: int| 0 <= i < init.len() implies (#[trigger] init[i]).0
                    <= init[i].1 by {
                    assert(init[i] == s[i]);
                }
                assert forall|i: int, j: int|
                    #![trigger init[i], init[j]]
                    0 <= i < j < init.len() implies init[i].1 <= init[j].0 by {
                    assert(init[i] == s[i] && init[j] == s[j]);
                }
            }
            assert forall|i: int| 0 <= i < r.len() implies (#[trigger] r[i]).0 <= r[i].1 by {
                assert(from_not_afk_span(r[i], s));
                let j = choose|j: int|
                    0 <= j < s.len() && (#[trigger] s[j]).2 == AfkStatus::NotAfk && r[i] == (
                        s[j].0,
                        s[j].1,
                    );
            }
            assert forall|i: int, j: int|
                #![trigger r[i], r[j]]
                0 <= i < j < r.len() implies r[i].1 <= r[j].0 by {
                if j < r0.len() {
                    assert(r[i] == r0[i] && r[j] == r0[j]);
                } else {
                    assert(r[i] == r0[i]);
                    assert(from_not_afk_span(r0[i], init));
                    let a = choose|a: int|
                        0 <= a < init.len() && (#[trigger] init[a]).2 == AfkStatus::NotAfk && r0[i]
                            == (init[a].0, init[a].1);
                    assert(s[a] == init[a]);
                    assert(s[s.len() - 1] == s.last());
                    assert(s[a].1 <= s[s.len() - 1].0);
                }
            }
        }
    }
}

/// `idx` lists in increasing order exactly the positions in `s` of the spans
/// whose status is `NotAfk`, and period `r[k]` is the extent of span
/// `s[idx[k]]`.
pub open spec fn lists_not_afk_extents(
    r: Seq<PeriodView>,
    s: Seq<SpanView<AfkStatus>>,
    idx: Seq<int>,
) -> bool {
    &&& idx.len() == r.len()
    &&& forall|k: int|
        0 <= k < idx.len() ==> 0 <= #[trigger] idx[k] < s.len() && s[idx[k]].2
            == AfkStatus::NotAfk && r[k] == (s[idx[k]].0, s[idx[k]].1)
    &&& forall|k1: int, k2: int|
        #![trigger idx[k1], idx[k2]]
        0 <= k1 < k2 < idx.len() ==> idx[k1] < idx[k2]
    &&& forall|j: int|
        0 <= j < s.len() && (#[trigger] s[j]).2 == AfkStatus::NotAfk ==> exists|k: int|
            0 <= k < idx.len() && #[trigger] idx[k] == j
}

proof fn lemma_not_afk_positions(s: Seq<SpanView<AfkStatus>>) -> (idx: Seq<int>)
    ensures
        lists_not_afk_extents(not_afk_periods(s), s, idx),
        forall|k: int| 0 <= k < idx.len() ==> #[trigger] idx[k] < s.len(),
    decreases s.len(),
{
    if s.len() == 0 {
        Seq::empty()
    } else {
        let init = s.drop_last();
        let idx0 = lemma_not_afk_positions(init);
        let r0 = not_afk_periods(init);
        let r = not_afk_periods(s);
        let n = s.len() - 1;
        assert forall|j: int| 0 <= j < n implies #[trigger] init[j] == s[j] by {}
        if s.last().2 == AfkStatus::NotAfk {
            let idx = idx0.push(n);
            assert forall|k: int| 0 <= k < idx.len() implies 0 <= #[trigger] idx[k] < s.len()
                && s[idx[k]].2 == AfkStatus::NotAfk && r[k] == (s[idx[k]].0, s[idx[k]].1) by {
                if k < idx0.len() {
                    assert(idx[k] == idx0[k]);
                    assert(init[idx0[k]] == s[idx0[k]]);
                    assert(r[k] == r0[k]);
                }
            }
            assert forall|k1: int, k2: int|
                #![trigger idx[k1], idx[k2]]
                0 <= k1 < k2 < idx.len() implies idx[k1] < idx[k2] by {
                assert(idx[k1] == idx0[k1]);
                if k2 < idx0.len() {
                    assert(idx[k2] == idx0[k2]);
                }
            }
            assert forall|j: int|
                0 <= j < s.len() && (#[trigger] s[j]).2 == AfkStatus::NotAfk implies exists|k: int|
                0 <= k < idx.len() && #[trigger] idx[k] == j by {
                if j < n {
                    assert(init[j] == s[j]);
                    let k = choose|k: int| 0 <= k < idx0.len() && #[trigger] idx0[k] == j;
                    assert(idx[k] == j);
                } else {
                    assert(idx[idx.len() - 1] == j);
                }
            }
            idx
        } else {
            assert forall|k: int| 0 <= k < idx0.len() implies 0 <= #[trigger] idx0[k] < s.len()
                && s[idx0[k]].2 == AfkStatus::NotAfk && r[k] == (s[idx0[k]].0, s[idx0[k]].1) by {
                assert(init[idx0[k]] == s[idx0[k]]);
            }
            assert forall|j: int|
                0 <= j < s.len() && (#[trigger] s[j]).2 == AfkStatus::NotAfk implies exists|k: int|
                0 <= k < idx0.len() && #[trigger] idx0[k] == j by {
                if j < n {
                    assert(init[j] == s[j]);
                } else {
                    assert(s[j] == s.last());
                }
            }
            idx0
        }
    }
}

/// Extracting the not-AFK periods gives exactly one period per span whose
/// status is `NotAfk`, in the order of the spans, each the extent
/// `(start, end)` of its span: no such span is left out, and nothing else is
/// added.
pub proof fn not_afk_periods_are_the_not_afk_extents(s: Seq<SpanView<AfkStatus>>)
    ensures
        exists|idx: Seq<int>| lists_not_afk_extents(not_afk_periods(s), s, idx),
{
    let idx = lemma_not_afk_positions(s);
}

// ==================== The whole preprocessing ====================

/// On sorted, non-overlapping window and AFK streams, the active window
/// spans are exactly the pieces of the flooded window spans inside the
/// not-AFK periods of the flooded AFK spans.
pub proof fn active_window_is_all_pieces<W>(
    window: Seq<SpanView<W>>,
    afk: Seq<SpanView<AfkStatus>>,
    pulse: int,
)
    requires
        spans_sorted_disjoint(window),
        spans_sorted_disjoint(afk),
    ensures
        active_spans(window, afk, pulse) == all_pieces(
            flood_spans(window, pulse),
            not_afk_periods(flood_spans(afk, pulse)),
        ),
{
    flood_keeps_sorted_disjoint(window, pulse);
    flood_keeps_sorted_disjoint(afk, pulse);
    not_afk_periods_come_from_spans(flood_spans(afk, pulse));
    intersect_is_all_pieces(flood_spans(window, pulse), not_afk_periods(flood_spans(afk, pulse)));
}

/// Whenever the flooded streams are well ordered (flooded window spans
/// sorted by start, flooded AFK spans sorted without overlap, and no flooded
/// window span crossing the end of a not-AFK period that a later one starts
/// before), the active window spans are exactly the pieces of the flooded
/// window spans inside the not-AFK periods of the flooded AFK spans, whatever
/// the order of the raw inputs.
pub proof fn active_window_is_pieces_of_flooded<W>(
    window: Seq<SpanView<W>>,
    afk: Seq<SpanView<AfkStatus>>,
    pulse: int,
)
    requires
        starts_sorted(flood_spans(window, pulse)),
        spans_sorted_disjoint(flood_spans(afk, pulse)),
        no_crossing(flood_spans(window, pulse), not_afk_periods(flood_spans(afk, pulse))),
    ensures
        active_spans(window, afk, pulse) == all_pieces(
            flood_spans(window, pulse),
            not_afk_periods(flood_spans(afk, pulse)),
        ),
{
    not_afk_periods_come_from_spans(flood_spans(afk, pulse));
    intersect_keeps_every_piece(flood_spans(window, pulse), not_afk_periods(flood_spans(afk, pulse)));
}

/// `x` has positive length, lies inside a span of `window` with the same
/// data, and inside a span of `afk` whose status is `NotAfk`.
pub open spec fn inside_not_afk<W>(
    x: SpanView<W>,
    window: Seq<SpanView<W>>,
    afk: Seq<SpanView<AfkStatus>>,
) -> bool {
    &&& x.0 < x.1
    &&& exists|i: int|
        0 <= i < window.len() && (#[trigger] window[i]).2 == x.2 && window[i].0 <= x.0 && x.1
            <= window[i].1
    &&& exists|j: int|
        0 <= j < afk.len() && (#[trigger] afk[j]).2 == AfkStatus::NotAfk && afk[j].0 <= x.0 && x.1
            <= afk[j].1
}

/// Every active window span has positive length, lies inside a flooded
/// window span with the same data, and inside a flooded AFK span whose
/// status is `NotAfk`, whatever the order of the input spans.
pub proof fn active_window_is_inside_not_afk<W>(
    window: Seq<SpanView<W>>,
    afk: Seq<SpanView<AfkStatus>>,
    pulse: int,
)
    ensures
        forall|k: int|
            0 <= k < active_spans(window, afk, pulse).len() ==> inside_not_afk(
                #[trigger] active_spans(window, afk, pulse)[k],
                flood_spans(window, pulse),
                flood_spans(afk, pulse),
            ),
{
    let fw = flood_spans(window, pulse);
    let fa = flood_spans(afk, pulse);
    let periods = not_afk_periods(fa);
    let out = intersect_spans(fw, periods);
    intersect_pieces_are_inside(fw, periods);
    not_afk_periods_come_from_spans(fa);
    assert forall|k: int| 0 <= k < out.len() implies inside_not_afk(#[trigger] out[k], fw, fa) by {
        let x = out[k];
        assert(piece_inside(out[k], fw, periods));
        let j = choose|j: int|
            0 <= j < periods.len() && (#[trigger] periods[j]).0 <= x.0 && x.1 <= periods[j].1;
        assert(from_not_afk_span(periods[j], fa));
    }
}

} // verus!
