//! Flood and filter-by-periods on ActivityWatch events.
use vstd::prelude::*;

use crate::models::{
    afk_spans, all_afk_wf, all_window_wf, window_spans, AfkStatus, AwAfkEvent, AwWindowEvent,
};
use crate::laws::{
    all_pieces, intersect_is_all_pieces, intersect_keeps_every_piece, no_crossing,
    not_afk_periods_come_from_spans, periods_sorted_disjoint, spans_sorted_disjoint,
    starts_sorted,
};
use crate::spans::{
    active_spans, cut_piece, flood_spans, lemma_whole_ms_bounds, whole_ms, flood_state, flood_step, intersect_from, intersect_spans,
    not_afk_periods, time_ok, PeriodView,
};

verus! {

broadcast use vstd::seq_lib::group_seq_properties;

/// Default pulse time for flooding, in milliseconds: gaps shorter than this
/// are filled.
pub const DEFAULT_PULSETIME_MS: i64 = 5000;

/// A period of time `[start, end)`, in nanoseconds since the Unix epoch.
#[derive(Debug, Clone, Copy, PartialEq, Eq, Structural)]
pub struct TimePeriod {
    pub start: i128,
    pub end: i128,
}

impl TimePeriod {
    /// Start and end both lie in the representable time range.
    pub open spec fn wf(&self) -> bool {
        time_ok(self.start as int) && time_ok(self.end as int)
    }
}

impl View for TimePeriod {
    type V = PeriodView;

    open spec fn view(&self) -> PeriodView {
        (self.start as int, self.end as int)
    }
}

/// The periods of a sequence of `TimePeriod`s, one for one.
pub open spec fn period_views(s: Seq<TimePeriod>) -> Seq<PeriodView> {
    s.map_values(|p: TimePeriod| p@)
}

/// Every period of the sequence is well formed.
pub open spec fn all_period_wf(s: Seq<TimePeriod>) -> bool {
    forall|i: int| 0 <= i < s.len() ==> #[trigger] s[i].wf()
}

/// `d` nanoseconds in whole milliseconds, rounded toward zero, as a
/// difference of two instants is measured in milliseconds.
fn whole_ms_of(d: i128) -> (r: i128)
    requires
        d > i128::MIN,
    ensures
        r == whole_ms(d as int),
{
    if d >= 0 {
        d / 1_000_000
    } else {
        -((-d) / 1_000_000)
    }
}

// ==================== Flood ====================

/// Flood of window events: fills the micro-gaps between heartbeats.
///
/// The gap between the end of the current event and the start of the next
/// is measured in whole milliseconds, rounded toward zero.
///
/// - same app and title, gap below `pulsetime_ms` → merged into one event
///   that ends where the next ends, its length rounded down to whole
///   milliseconds;
/// - same app and title, overlap → merged up to the later end, likewise;
/// - different app or title, positive gap below `pulsetime_ms` → the gap is
///   split 50/50: the current event grows by exactly half the gap, the next
///   starts earlier by half the gap rounded down to whole milliseconds;
/// - otherwise the events stay as they are.
pub fn flood_window(events: Vec<AwWindowEvent>, pulsetime_ms: i64) -> (result: Vec<AwWindowEvent>)
    requires
        all_window_wf(events@),
    ensures
        window_spans(result@) == flood_spans(window_spans(events@), pulsetime_ms as int),
        all_window_wf(result@),
{
    if events.len() <= 1 {
        return events;
    }
    let n = events.len();
    let ghost spans = window_spans(events@);
    let ghost pulse = pulsetime_ms as int;
    let mut result: Vec<AwWindowEvent> = Vec::with_capacity(n);
    let mut current = events[0].duplicate();
    let mut i: usize = 1;
    while i < n
        invariant
            1 <= i <= n,
            n == events.len(),
            spans == window_spans(events@),
            pulse == pulsetime_ms as int,
            all_window_wf(events@),
            all_window_wf(result@),
            current.wf(),
            window_spans(result@) == flood_state(spans, i as nat, pulse).0,
            current@ == flood_state(spans, i as nat, pulse).1,
        decreases n - i,
    {
        let next = &events[i];
        assert(next.wf());
        assert(spans[i as int] == next@);
        let ghost before = flood_state(spans, i as nat, pulse);
        let cur_end = current.end_time();
        let next_end = next.end_time();
        let gap = whole_ms_of(next.timestamp - cur_end);
        proof {
            lemma_whole_ms_bounds(next.timestamp - cur_end);
        }
        let same = current.app == next.app && current.title == next.title;
        if gap < 0 && same {
            let new_end = if cur_end >= next_end {
                cur_end
            } else {
                next_end
            };
            proof {
                lemma_whole_ms_bounds(new_end - current.timestamp);
            }
            current.duration_ns = whole_ms_of(new_end - current.timestamp) * 1_000_000;
        } else if gap >= 0 && gap < pulsetime_ms as i128 && same {
            proof {
                lemma_whole_ms_bounds(next_end - current.timestamp);
            }
            current.duration_ns = whole_ms_of(next_end - current.timestamp) * 1_000_000;
        } else if gap > 0 && gap < pulsetime_ms as i128 && !same {
            let half_ms = gap / 2;
            current.duration_ns = current.duration_ns + gap * 500_000;
            result.push(current);
            current =
                AwWindowEvent {
                    timestamp: next.timestamp - half_ms * 1_000_000,
                    duration_ns: next.duration_ns + half_ms * 1_000_000,
                    app: next.app.clone(),
                    title: next.title.clone(),
                };
        } else {
            result.push(current);
            current = next.duplicate();
        }
        assert(flood_state(spans, (i + 1) as nat, pulse) == flood_step(
            before.0,
            before.1,
            spans[i as int],
            pulse,
        ));
        assert(window_spans(result@) == flood_state(spans, (i + 1) as nat, pulse).0);
        i += 1;
    }
    result.push(current);
    result
}

/// Flood of AFK events: the same as `flood_window`, with the status as the
/// data that decides whether two events merge.
pub fn flood_afk(events: Vec<AwAfkEvent>, pulsetime_ms: i64) -> (result: Vec<AwAfkEvent>)
    requires
        all_afk_wf(events@),
    ensures
        afk_spans(result@) == flood_spans(afk_spans(events@), pulsetime_ms as int),
        all_afk_wf(result@),
{
    if events.len() <= 1 {
        return events;
    }
    let n = events.len();
    let ghost spans = afk_spans(events@);
    let ghost pulse = pulsetime_ms as int;
    let mut result: Vec<AwAfkEvent> = Vec::with_capacity(n);
    let mut current = events[0].duplicate();
    let mut i: usize = 1;
    while i < n
        invariant
            1 <= i <= n,
            n == events.len(),
            spans == afk_spans(events@),
            pulse == pulsetime_ms as int,
            all_afk_wf(events@),
            all_afk_wf(result@),
            current.wf(),
            afk_spans(result@) == flood_state(spans, i as nat, pulse).0,
            current@ == flood_state(spans, i as nat, pulse).1,
        decreases n - i,
    {
        let next = &events[i];
        assert(next.wf());
        assert(spans[i as int] == next@);
        let ghost before = flood_state(spans, i as nat, pulse);
        let cur_end = current.end_time();
        let next_end = next.end_time();
        let gap = whole_ms_of(next.timestamp - cur_end);
        proof {
            lemma_whole_ms_bounds(next.timestamp - cur_end);
        }
        let same = current.status == next.status;
        if gap < 0 && same {
            let new_end = if cur_end >= next_end {
                cur_end
            } else {
                next_end
            };
            proof {
                lemma_whole_ms_bounds(new_end - current.timestamp);
            }
            current.duration_ns = whole_ms_of(new_end - current.timestamp) * 1_000_000;
        } else if gap >= 0 && gap < pulsetime_ms as i128 && same {
            proof {
                lemma_whole_ms_bounds(next_end - current.timestamp);
            }
            current.duration_ns = whole_ms_of(next_end - current.timestamp) * 1_000_000;
        } else if gap > 0 && gap < pulsetime_ms as i128 && !same {
            let half_ms = gap / 2;
            current.duration_ns = current.duration_ns + gap * 500_000;
            result.push(current);
            current =
                AwAfkEvent {
                    timestamp: next.timestamp - half_ms * 1_000_000,
                    duration_ns: next.duration_ns + half_ms * 1_000_000,
                    status: next.status,
                };
        } else {
            result.push(current);
            current = next.duplicate();
        }
        assert(flood_state(spans, (i + 1) as nat, pulse) == flood_step(
            before.0,
            before.1,
            spans[i as int],
            pulse,
        ));
        assert(afk_spans(result@) == flood_state(spans, (i + 1) as nat, pulse).0);
        i += 1;
    }
    result.push(current);
    result
}

// ==================== Filter by periods ====================

/// The not-AFK periods of AFK events: one period `[start, end)` for each
/// event whose status is `NotAfk`, in order.
pub fn extract_not_afk_periods(afk_events: &[AwAfkEvent]) -> (result: Vec<TimePeriod>)
    requires
        all_afk_wf(afk_events@),
    ensures
        period_views(result@) == not_afk_periods(afk_spans(afk_events@)),
        all_period_wf(result@),
{
    let n = afk_events.len();
    let ghost spans = afk_spans(afk_events@);
    let mut result: Vec<TimePeriod> = Vec::new();
    let mut i: usize = 0;
    while i < n
        invariant
            i <= n,
            n == afk_events.len(),
            spans == afk_spans(afk_events@),
            all_afk_wf(afk_events@),
            all_period_wf(result@),
            period_views(result@) == not_afk_periods(spans.take(i as int)),
        decreases n - i,
    {
        let e = &afk_events[i];
        assert(e.wf());
        assert(spans.take(i + 1).drop_last() == spans.take(i as int));
        assert(spans.take(i + 1).last() == e@);
        if e.status == AfkStatus::NotAfk {
            result.push(TimePeriod { start: e.timestamp, end: e.end_time() });
        }
        i += 1;
    }
    assert(spans.take(n as int) == spans);
    result
}

/// Window events cut down to periods, by a two-pointer walk over both.
///
/// When the events are sorted by start (they may overlap), the periods are
/// sorted and do not overlap, and no event crosses the end of a period that a
/// later event starts before, the result is every piece of every event inside
/// every period, event by event and period by period.
///
/// An event that overlaps several periods is cut into several pieces. The
/// length of a piece is rounded toward zero to whole milliseconds, and a
/// piece whose length is then not positive is dropped.
pub fn filter_period_intersect(events: &[AwWindowEvent], periods: &[TimePeriod]) -> (result: Vec<
    AwWindowEvent,
>)
    requires
        all_window_wf(events@),
        all_period_wf(periods@),
    ensures
        window_spans(result@) == intersect_spans(window_spans(events@), period_views(periods@)),
        spans_sorted_disjoint(window_spans(events@)) && periods_sorted_disjoint(
            period_views(periods@),
        ) ==> window_spans(result@) == all_pieces(window_spans(events@), period_views(periods@)),
        starts_sorted(window_spans(events@)) && no_crossing(
            window_spans(events@),
            period_views(periods@),
        ) && periods_sorted_disjoint(period_views(periods@)) ==> window_spans(result@)
            == all_pieces(window_spans(events@), period_views(periods@)),
        all_window_wf(result@),
{
    proof {
        if spans_sorted_disjoint(window_spans(events@)) && periods_sorted_disjoint(
            period_views(periods@),
        ) {
            intersect_is_all_pieces(window_spans(events@), period_views(periods@));
        }
        if starts_sorted(window_spans(events@)) && no_crossing(
            window_spans(events@),
            period_views(periods@),
        ) && periods_sorted_disjoint(period_views(periods@)) {
            intersect_keeps_every_piece(window_spans(events@), period_views(periods@));
        }
    }
    let en = events.len();
    let pn = periods.len();
    if en == 0 || pn == 0 {
        return Vec::new();
    }
    let ghost es = window_spans(events@);
    let ghost ps = period_views(periods@);
    let ghost total = intersect_spans(es, ps);
    let mut result: Vec<AwWindowEvent> = Vec::new();
    let mut ei: usize = 0;
    let mut pi: usize = 0;
    let mut from: i128 = events[0].timestamp;
    assert(events[0].wf());
    while ei < en && pi < pn
        invariant
            ei <= en,
            pi <= pn,
            en == events.len(),
            pn == periods.len(),
            es == window_spans(events@),
            ps == period_views(periods@),
            all_window_wf(events@),
            all_period_wf(periods@),
            all_window_wf(result@),
            time_ok(from as int),
            window_spans(result@) + intersect_from(es, ps, ei as int, pi as int, from as int)
                == total,
        decreases en - ei + pn - pi,
    {
        let e = &events[ei];
        let p = &periods[pi];
        assert(e.wf());
        assert(p.wf());
        assert(es[ei as int] == e@);
        assert(ps[pi as int] == p@);
        let ghost old_result = window_spans(result@);
        let e_end = e.end_time();
        if e_end <= p.start {
            assert(intersect_from(es, ps, ei as int, pi as int, from as int) == intersect_from(
                es,
                ps,
                ei + 1,
                pi as int,
                es[ei + 1].0,
            ));
            ei += 1;
            if ei < en {
                assert(events[ei as int].wf());
                from = events[ei].timestamp;
            }
        } else if p.end <= from {
            pi += 1;
        } else {
            let ghost piece = cut_piece(from as int, e@, p@);
            let ghost rest = if e_end <= p.end {
                intersect_from(es, ps, ei + 1, pi as int, es[ei + 1].0)
            } else {
                intersect_from(es, ps, ei as int, pi + 1, p.end as int)
            };
            assert(intersect_from(es, ps, ei as int, pi as int, from as int) == piece + rest);
            let s = if from >= p.start {
                from
            } else {
                p.start
            };
            let t = if e_end <= p.end {
                e_end
            } else {
                p.end
            };
            proof {
                lemma_whole_ms_bounds(t - s);
            }
            let length_ms = whole_ms_of(t - s);
            if length_ms > 0 {
                result.push(
                    AwWindowEvent {
                        timestamp: s,
                        duration_ns: length_ms * 1_000_000,
                        app: e.app.clone(),
                        title: e.title.clone(),
                    },
                );
            }
            assert(window_spans(result@) == old_result + piece);
            assert(old_result + (piece + rest) == (old_result + piece) + rest);
            if e_end <= p.end {
                ei += 1;
                if ei < en {
                    assert(events[ei as int].wf());
                    from = events[ei].timestamp;
                }
            } else {
                from = p.end;
                pi += 1;
            }
        }
    }
    result
}

/// The whole preprocessing: flood both streams, take the not-AFK periods of
/// the flooded AFK events, and cut the flooded window events down to them.
///
/// Returns `(active_window, flooded_window, flooded_afk)`.
pub fn preprocess_active_window_events(
    window_events: Vec<AwWindowEvent>,
    afk_events: Vec<AwAfkEvent>,
    pulsetime_ms: i64,
) -> (result: (Vec<AwWindowEvent>, Vec<AwWindowEvent>, Vec<AwAfkEvent>))
    requires
        all_window_wf(window_events@),
        all_afk_wf(afk_events@),
    ensures
        window_spans(result.1@) == flood_spans(window_spans(window_events@), pulsetime_ms as int),
        afk_spans(result.2@) == flood_spans(afk_spans(afk_events@), pulsetime_ms as int),
        window_spans(result.0@) == active_spans(
            window_spans(window_events@),
            afk_spans(afk_events@),
            pulsetime_ms as int,
        ),
        starts_sorted(window_spans(result.1@)) && spans_sorted_disjoint(afk_spans(result.2@))
            && no_crossing(window_spans(result.1@), not_afk_periods(afk_spans(result.2@)))
            ==> window_spans(result.0@) == all_pieces(
            window_spans(result.1@),
            not_afk_periods(afk_spans(result.2@)),
        ),
        all_window_wf(result.0@),
        all_window_wf(result.1@),
        all_afk_wf(result.2@),
{
    let flooded_window = flood_window(window_events, pulsetime_ms);
    let flooded_afk = flood_afk(afk_events, pulsetime_ms);
    let not_afk_periods = extract_not_afk_periods(&flooded_afk);
    proof {
        not_afk_periods_come_from_spans(afk_spans(flooded_afk@));
    }
    let active_window = filter_period_intersect(&flooded_window, &not_afk_periods);
    (active_window, flooded_window, flooded_afk)
}

} // verus!
