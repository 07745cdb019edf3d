//! The mathematical model: spans of time with a payload, and what the two
//! preprocessing steps do to sequences of them.
use vstd::prelude::*;

use crate::models::AfkStatus;

verus! {

/// Largest magnitude, in nanoseconds from the epoch, of an instant the
/// library handles: half the range of `i128`, so that the difference of any
/// two instants fits in an `i128`. It holds every instant that chrono can
/// represent.
pub const TIME_LIMIT_NS: i128 = 85070591730234615865843651857942052863;

/// `t` is an instant the library handles.
pub open spec fn time_ok(t: int) -> bool {
    -TIME_LIMIT_NS <= t <= TIME_LIMIT_NS
}

/// A span of time `[start, end)` that carries `data`: `(start, end, data)`.
pub type SpanView<D> = (int, int, D);

/// A period of time `[start, end)`.
pub type PeriodView = (int, int);

pub open spec fn max_int(a: int, b: int) -> int {
    if a >= b { a } else { b }
}

pub open spec fn min_int(a: int, b: int) -> int {
    if a <= b { a } else { b }
}

/// A length of `d` nanoseconds in whole milliseconds, rounded toward zero.
pub open spec fn whole_ms(d: int) -> int {
    if d >= 0 {
        d / 1_000_000
    } else {
        -((-d) / 1_000_000)
    }
}

/// Rounding toward zero to whole milliseconds loses less than a millisecond
/// and never changes the sign.
pub proof fn lemma_whole_ms_bounds(d: int)
    ensures
        d >= 0 ==> 0 <= whole_ms(d) * 1_000_000 <= d && d - whole_ms(d) * 1_000_000 < 1_000_000,
        d < 0 ==> d <= whole_ms(d) * 1_000_000 <= 0 && whole_ms(d) * 1_000_000 - d < 1_000_000,
        whole_ms(d) > 0 <==> d >= 1_000_000,
        whole_ms(d) < 0 <==> d <= -1_000_000,
{
    if d >= 0 {
        let q = d / 1_000_000;
        assert(0 <= d - q * 1_000_000 < 1_000_000) by (nonlinear_arith)
            requires
                q == d / 1_000_000,
                d >= 0,
        ;
    } else {
        let q = (-d) / 1_000_000;
        assert(0 <= (-d) - q * 1_000_000 < 1_000_000) by (nonlinear_arith)
            requires
                q == (-d) / 1_000_000,
                -d > 0,
        ;
    }
}

// ==================== Flood ====================

/// One step of flooding: `done` holds the finished spans, `cur` the span
/// being grown, `next` the following input span. The gap between them is
/// measured in whole milliseconds, rounded toward zero.
///
/// - same data, overlap: `cur` grows to the later of the two ends, its length
///   rounded down to whole milliseconds;
/// - same data, gap in `[0, pulse)`: `cur` grows to the end of `next`, its
///   length rounded down to whole milliseconds;
/// - other data, gap in `(0, pulse)`: `cur` grows by exactly half the gap,
///   and `next` starts earlier by half the gap rounded down to whole
///   milliseconds;
/// - otherwise `cur` is finished and `next` becomes the current span.
pub open spec fn flood_step<D>(
    done: Seq<SpanView<D>>,
    cur: SpanView<D>,
    next: SpanView<D>,
    pulse: int,
) -> (Seq<SpanView<D>>, SpanView<D>) {
    let gap = whole_ms(next.0 - cur.1);
    let same = cur.2 == next.2;
    if gap < 0 && same {
        (done, (cur.0, cur.0 + whole_ms(max_int(cur.1, next.1) - cur.0) * 1_000_000, cur.2))
    } else if 0 <= gap < pulse && same {
        (done, (cur.0, cur.0 + whole_ms(next.1 - cur.0) * 1_000_000, cur.2))
    } else if 0 < gap < pulse && !same {
        (done.push((cur.0, cur.1 + gap * 500_000, cur.2)), (next.0 - (gap / 2) * 1_000_000, next.1, next.2))
    } else {
        (done.push(cur), next)
    }
}

/// Finished spans and current span after flooding the first `n` spans of `s`
/// (`1 <= n <= s.len()`).
pub open spec fn flood_state<D>(s: Seq<SpanView<D>>, n: nat, pulse: int) -> (
    Seq<SpanView<D>>,
    SpanView<D>,
)
    decreases n,
{
    if n <= 1 {
        (Seq::empty(), s[0])
    } else {
        let st = flood_state(s, (n - 1) as nat, pulse);
        flood_step(st.0, st.1, s[n - 1], pulse)
    }
}

/// The flooded sequence: the input when it has at most one span, otherwise
/// the finished spans followed by the current span once all are processed.
pub open spec fn flood_spans<D>(s: Seq<SpanView<D>>, pulse: int) -> Seq<SpanView<D>> {
    if s.len() == 0 {
        s
    } else {
        let st = flood_state(s, s.len(), pulse);
        st.0.push(st.1)
    }
}

// ==================== Filter by periods ====================

/// The intersection of span `e`, whose uncut part starts at `from`, with
/// period `p`, its length rounded toward zero to whole milliseconds, as a
/// sequence of at most one span: empty when that length is not positive.
pub open spec fn cut_piece<D>(from: int, e: SpanView<D>, p: PeriodView) -> Seq<SpanView<D>> {
    let s = max_int(from, p.0);
    let t = min_int(e.1, p.1);
    let d = whole_ms(t - s);
    if d > 0 {
        seq![(s, s + d * 1_000_000, e.2)]
    } else {
        Seq::empty()
    }
}

/// The spans that the two-pointer walk produces from position `ei` of the
/// events and `pi` of the periods on, when the uncut part of event `ei`
/// starts at `from`.
pub open spec fn intersect_from<D>(
    events: Seq<SpanView<D>>,
    periods: Seq<PeriodView>,
    ei: int,
    pi: int,
    from: int,
) -> Seq<SpanView<D>>
    decreases events.len() - ei + periods.len() - pi,
{
    if !(0 <= ei < events.len() && 0 <= pi < periods.len()) {
        Seq::empty()
    } else {
        let e = events[ei];
        let p = periods[pi];
        if e.1 <= p.0 {
            // the event ends before the period: next event
            intersect_from(events, periods, ei + 1, pi, events[ei + 1].0)
        } else if p.1 <= from {
            // the period ends before the event: next period
            intersect_from(events, periods, ei, pi + 1, from)
        } else if e.1 <= p.1 {
            // the event ends first
            cut_piece(from, e, p) + intersect_from(events, periods, ei + 1, pi, events[ei + 1].0)
        } else {
            // the period ends first: the rest of the event goes on
            cut_piece(from, e, p) + intersect_from(events, periods, ei, pi + 1, p.1)
        }
    }
}

/// Events cut down to periods by a two-pointer walk over both sequences.
pub open spec fn intersect_spans<D>(events: Seq<SpanView<D>>, periods: Seq<PeriodView>) -> Seq<
    SpanView<D>,
> {
    if events.len() == 0 || periods.len() == 0 {
        Seq::empty()
    } else {
        intersect_from(events, periods, 0, 0, events[0].0)
    }
}

// ==================== Not-AFK periods ====================

/// The periods `[start, end)` of the spans whose status is `NotAfk`, in order.
pub open spec fn not_afk_periods(s: Seq<SpanView<AfkStatus>>) -> Seq<PeriodView>
    decreases s.len(),
{
    if s.len() == 0 {
        Seq::empty()
    } else {
        let rest = not_afk_periods(s.drop_last());
        let e = s.last();
        if e.2 == AfkStatus::NotAfk {
            rest.push((e.0, e.1))
        } else {
            rest
        }
    }
}

// ==================== The whole preprocessing ====================

/// The active window spans: the flooded window spans cut down to the
/// not-AFK periods of the flooded AFK spans.
pub open spec fn active_spans<W>(
    window: Seq<SpanView<W>>,
    afk: Seq<SpanView<AfkStatus>>,
    pulse: int,
) -> Seq<SpanView<W>> {
    intersect_spans(flood_spans(window, pulse), not_afk_periods(flood_spans(afk, pulse)))
}

} // verus!
