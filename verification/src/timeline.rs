use vstd::prelude::*;

use crate::Pid;

verus! {

/// The kind of process-lifecycle event a refresh can detect between two
/// ticks.
#[derive(Debug, PartialEq)]
pub enum TimelineEventKind {
    Started,
    Exited { exit_reason: Option<String> },
    /// RSS grew past the growth threshold over the growth window;
    /// `percent_growth_centi` is the growth in hundredths of a percent.
    MemoryGrowthThresholdCrossed { percent_growth_centi: u64, window_secs: u64 },
    NewChild { child_pid: Pid },
    NewConnection { remote_addr: String },
}

/// One entry in a process's history timeline.
#[derive(Debug, PartialEq)]
pub struct TimelineEvent {
    pub pid: Pid,
    /// Unix timestamp (seconds) this event was observed.
    pub at: i64,
    pub kind: TimelineEventKind,
    pub description: String,
}

impl Clone for TimelineEventKind {
    fn clone(&self) -> (r: Self)
        ensures
            r == *self,
    {
        match self {
            TimelineEventKind::Started => TimelineEventKind::Started,
            TimelineEventKind::Exited { exit_reason } => TimelineEventKind::Exited {
                exit_reason: match exit_reason {
                    Some(r) => Some(r.clone()),
                    None => None,
                },
            },
            TimelineEventKind::MemoryGrowthThresholdCrossed { percent_growth_centi, window_secs } =>
                TimelineEventKind::MemoryGrowthThresholdCrossed {
                percent_growth_centi: *percent_growth_centi,
                window_secs: *window_secs,
            },
            TimelineEventKind::NewChild { child_pid } => TimelineEventKind::NewChild {
                child_pid: *child_pid,
            },
            TimelineEventKind::NewConnection { remote_addr } => TimelineEventKind::NewConnection {
                remote_addr: remote_addr.clone(),
            },
        }
    }
}

impl Clone for TimelineEvent {
    fn clone(&self) -> (r: Self)
        ensures
            r == *self,
    {
        TimelineEvent {
            pid: self.pid,
            at: self.at,
            kind: self.kind.clone(),
            description: self.description.clone(),
        }
    }
}


/// The value of a `TimelineEventKind`, its strings as character sequences.
pub enum EventKindView {
    Started,
    Exited { exit_reason: Option<Seq<char>> },
    MemoryGrowthThresholdCrossed { percent_growth_centi: u64, window_secs: u64 },
    NewChild { child_pid: Pid },
    NewConnection { remote_addr: Seq<char> },
}

/// The value of a `TimelineEvent`, its strings as character sequences.
pub struct EventView {
    pub pid: Pid,
    pub at: i64,
    pub kind: EventKindView,
    pub description: Seq<char>,
}

impl View for TimelineEventKind {
    type V = EventKindView;

    open spec fn view(&self) -> EventKindView {
        match self {
            TimelineEventKind::Started => EventKindView::Started,
            TimelineEventKind::Exited { exit_reason } => EventKindView::Exited {
                exit_reason: match exit_reason {
                    Some(r) => Some(r@),
                    None => None,
                },
            },
            TimelineEventKind::MemoryGrowthThresholdCrossed { percent_growth_centi, window_secs } =>
                EventKindView::MemoryGrowthThresholdCrossed {
                percent_growth_centi: *percent_growth_centi,
                window_secs: *window_secs,
            },
            TimelineEventKind::NewChild { child_pid } => EventKindView::NewChild {
                child_pid: *child_pid,
            },
            TimelineEventKind::NewConnection { remote_addr } => EventKindView::NewConnection {
                remote_addr: remote_addr@,
            },
        }
    }
}

impl View for TimelineEvent {
    type V = EventView;

    open spec fn view(&self) -> EventView {
        EventView { pid: self.pid, at: self.at, kind: self.kind@, description: self.description@ }
    }
}

} // verus!
