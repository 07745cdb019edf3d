//! Event types read from ActivityWatch buckets.
use vstd::prelude::*;

use crate::spans::{time_ok, SpanView};

verus! {

/// Status recorded by the AFK watcher.
#[derive(Debug, Clone, Copy, PartialEq, Eq, Structural)]
pub enum AfkStatus {
    Afk,
    NotAfk,
}

/// An event of the window watcher: which application and window title were
/// in focus from `timestamp` on, for `duration_ns` nanoseconds.
#[derive(Debug, Clone)]
pub struct AwWindowEvent {
    /// Start, in nanoseconds since the Unix epoch.
    pub timestamp: i128,
    /// Length in nanoseconds.
    pub duration_ns: i128,
    pub app: String,
    pub title: String,
}

/// An event of the AFK watcher.
#[derive(Debug, Clone)]
pub struct AwAfkEvent {
    /// Start, in nanoseconds since the Unix epoch.
    pub timestamp: i128,
    /// Length in nanoseconds.
    pub duration_ns: i128,
    pub status: AfkStatus,
}

impl AwWindowEvent {
    /// The instant at which the event ends.
    pub open spec fn end_spec(&self) -> int {
        self.timestamp + self.duration_ns
    }

    /// Start and end both lie in the representable time range.
    pub open spec fn wf(&self) -> bool {
        time_ok(self.timestamp as int) && time_ok(self.end_spec())
    }

    /// End of the event: `timestamp + duration_ns`.
    pub fn end_time(&self) -> (r: i128)
        requires
            self.wf(),
        ensures
            r == self.end_spec(),
    {
        self.timestamp + self.duration_ns
    }

    /// A copy of the event, field by field.
    pub fn duplicate(&self) -> (r: AwWindowEvent)
        ensures
            r == *self,
    {
        AwWindowEvent {
            timestamp: self.timestamp,
            duration_ns: self.duration_ns,
            app: self.app.clone(),
            title: self.title.clone(),
        }
    }
}

impl View for AwWindowEvent {
    /// `(start, end, (app, title))`
    type V = SpanView<(Seq<char>, Seq<char>)>;

    open spec fn view(&self) -> SpanView<(Seq<char>, Seq<char>)> {
        (self.timestamp as int, self.end_spec(), (self.app@, self.title@))
    }
}

impl AwAfkEvent {
    /// The instant at which the event ends.
    pub open spec fn end_spec(&self) -> int {
        self.timestamp + self.duration_ns
    }

    /// Start and end both lie in the representable time range.
    pub open spec fn wf(&self) -> bool {
        time_ok(self.timestamp as int) && time_ok(self.end_spec())
    }

    /// End of the event: `timestamp + duration_ns`.
    pub fn end_time(&self) -> (r: i128)
        requires
            self.wf(),
        ensures
            r == self.end_spec(),
    {
        self.timestamp + self.duration_ns
    }

    /// A copy of the event, field by field.
    pub fn duplicate(&self) -> (r: AwAfkEvent)
        ensures
            r == *self,
    {
        AwAfkEvent { timestamp: self.timestamp, duration_ns: self.duration_ns, status: self.status }
    }
}

impl View for AwAfkEvent {
    /// `(start, end, status)`
    type V = SpanView<AfkStatus>;

    open spec fn view(&self) -> SpanView<AfkStatus> {
        (self.timestamp as int, self.end_spec(), self.status)
    }
}

/// The spans of a sequence of window events, one for one.
pub open spec fn window_spans(s: Seq<AwWindowEvent>) -> Seq<SpanView<(Seq<char>, Seq<char>)>> {
    s.map_values(|e: AwWindowEvent| e@)
}

/// The spans of a sequence of AFK events, one for one.
pub open spec fn afk_spans(s: Seq<AwAfkEvent>) -> Seq<SpanView<AfkStatus>> {
    s.map_values(|e: AwAfkEvent| e@)
}

/// Every window event of the sequence is well formed.
pub open spec fn all_window_wf(s: Seq<AwWindowEvent>) -> bool {
    forall|i: int| 0 <= i < s.len() ==> #[trigger] s[i].wf()
}

/// Every AFK event of the sequence is well formed.
pub open spec fn all_afk_wf(s: Seq<AwAfkEvent>) -> bool {
    forall|i: int| 0 <= i < s.len() ==> #[trigger] s[i].wf()
}

} // verus!
