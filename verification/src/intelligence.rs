//! `ProcessIntelligence`: the state derived from repeated refreshes of the
//! process table — the current process map, per-process sample history
//! keyed by `(pid, start_time)`, the remote addresses each process has been
//! seen connected to, and a bounded timeline of lifecycle events.
//!
//! A refresh takes the readings of one pass over the process table (made by
//! the caller, which owns the telemetry source) and the time of the pass.

use vstd::prelude::*;

use std::collections::HashMap;
use std::collections::HashSet;
use std::collections::VecDeque;

use crate::cpu::CpuStats;
use crate::network::NetworkConnection;
use crate::process::{ProcessSnapshot, SnapshotView};
use crate::text::{decimal, push_decimal, push_ratio, push_signed, ratio_text, signed_decimal};
use crate::timeline::{EventKindView, EventView, TimelineEvent, TimelineEventKind};
use crate::tree::{family_fits, is_family_rollup, node_views, ProcessTree};
use crate::Pid;

verus! {

broadcast use vstd::std_specs::hash::group_hash_axioms;

/// How far back a process's history must reach before growth over the
/// window is a meaningful claim.
pub const DEFAULT_GROWTH_WINDOW_SECS: i64 = 3600;

/// RSS growth, in percent, within `DEFAULT_GROWTH_WINDOW_SECS` that is
/// flagged. A documented heuristic, not a fact: findings built on it are
/// at most `Likely`.
pub const DEFAULT_GROWTH_THRESHOLD_PERCENT: u64 = 50;

/// Clock ticks per second (`sysconf(_SC_CLK_TCK)`), 100 on every
/// mainstream Linux architecture.
pub const CLK_TCK: u64 = 100;

/// How many samples are kept per `(pid, start_time)`.
pub const DEFAULT_HISTORY_CAPACITY: usize = 120;

/// How many timeline events are kept in total.
pub const DEFAULT_TIMELINE_CAPACITY: usize = 1000;

/// A `(pid, start_time)` pair: the history key that survives pid reuse.
pub type HistoryKey = (Pid, u64);

/// What one pass over the process table read for one pid: its snapshot,
/// and its network connections when they could be read.
pub struct ProcessReading {
    pub snapshot: ProcessSnapshot,
    pub connections: Option<Vec<NetworkConnection>>,
}

/// The abstract state of a `ProcessIntelligence`.
pub struct IntelModel {
    pub current: Map<Pid, SnapshotView>,
    pub history: Map<HistoryKey, Seq<(i64, SnapshotView)>>,
    pub seen: Map<HistoryKey, Set<Seq<char>>>,
    pub timeline: Seq<EventView>,
    pub stale: Set<HistoryKey>,
    pub history_capacity: nat,
    pub timeline_capacity: nat,
}

/// The last `cap` elements of `s` (all of it when it is shorter).
pub open spec fn keep_last<A>(s: Seq<A>, cap: nat) -> Seq<A> {
    if s.len() > cap {
        s.subrange(s.len() - cap, s.len() as int)
    } else {
        s
    }
}

/// CPU utilization in hundredths of a percent, from the tick delta between
/// two readings `elapsed` seconds apart: zero when no time has elapsed, and
/// saturated at `u64::MAX`.
pub open spec fn spec_cpu_percent_centi(prev_ticks: int, curr_ticks: int, elapsed: int) -> int {
    if elapsed <= 0 {
        0
    } else {
        let delta = if curr_ticks > prev_ticks { curr_ticks - prev_ticks } else { 0 };
        let v = delta * 10000 / (CLK_TCK * elapsed);
        if v > u64::MAX { u64::MAX as int } else { v }
    }
}

/// The index of the latest sample taken at least the growth window before
/// `now`, or `-1` when there is none.
pub open spec fn baseline_index(samples: Seq<(i64, SnapshotView)>, now: i64) -> int
    decreases samples.len(),
{
    if samples.len() == 0 {
        -1
    } else if now - samples.last().0 >= DEFAULT_GROWTH_WINDOW_SECS {
        samples.len() - 1
    } else {
        baseline_index(samples.drop_last(), now)
    }
}

/// Growth from `base` to `rss` reaches the threshold percentage.
pub open spec fn growth_crosses(base: int, rss: int) -> bool {
    base > 0 && (rss - base) * 100 >= DEFAULT_GROWTH_THRESHOLD_PERCENT * base
}

/// Growth from `base` (positive) to `rss` in hundredths of a percent,
/// saturated at `u64::MAX`.
pub open spec fn growth_centi(base: int, rss: int) -> int {
    let v = (rss - base) * 10000 / base;
    if v > u64::MAX { u64::MAX as int } else { v }
}

pub open spec fn started_text(name: Seq<char>, pid: Pid) -> Seq<char> {
    name + " ("@ + signed_decimal(pid as int) + ") started"@
}

pub open spec fn new_child_text(child: Pid, name: Seq<char>) -> Seq<char> {
    "new child process "@ + signed_decimal(child as int) + " ("@ + name + ")"@
}

pub open spec fn growth_text(name: Seq<char>, pid: Pid, base: int, rss: int) -> Seq<char> {
    name + " ("@ + signed_decimal(pid as int) + ") RSS grew "@ + ratio_text((rss - base) * 100, base)
        + "% over the last "@ + decimal((DEFAULT_GROWTH_WINDOW_SECS / 60) as nat) + "m"@
}

pub open spec fn connected_text(name: Seq<char>, pid: Pid, addr: Seq<char>) -> Seq<char> {
    name + " ("@ + signed_decimal(pid as int) + ") connected to "@ + addr
}

pub open spec fn exited_text(pid: Pid) -> Seq<char> {
    "process "@ + signed_decimal(pid as int) + " exited"@
}

pub open spec fn started_event(s: SnapshotView, now: i64) -> EventView {
    EventView { pid: s.pid, at: now, kind: EventKindView::Started, description: started_text(s.name@, s.pid) }
}

pub open spec fn child_event(s: SnapshotView, now: i64) -> EventView {
    EventView {
        pid: s.ppid,
        at: now,
        kind: EventKindView::NewChild { child_pid: s.pid },
        description: new_child_text(s.pid, s.name@),
    }
}

pub open spec fn growth_event(s: SnapshotView, base: int, now: i64) -> EventView {
    EventView {
        pid: s.pid,
        at: now,
        kind: EventKindView::MemoryGrowthThresholdCrossed {
            percent_growth_centi: growth_centi(base, s.memory.rss as int) as u64,
            window_secs: DEFAULT_GROWTH_WINDOW_SECS as u64,
        },
        description: growth_text(s.name@, s.pid, base, s.memory.rss as int),
    }
}

pub open spec fn connection_event(s: SnapshotView, addr: Seq<char>, now: i64) -> EventView {
    EventView {
        pid: s.pid,
        at: now,
        kind: EventKindView::NewConnection { remote_addr: addr },
        description: connected_text(s.name@, s.pid, addr),
    }
}

pub open spec fn exit_event(pid: Pid, now: i64) -> EventView {
    EventView {
        pid,
        at: now,
        kind: EventKindView::Exited { exit_reason: None },
        description: exited_text(pid),
    }
}

/// The distinct, non-empty remote addresses of `conns`, in order of first
/// appearance.
pub open spec fn remote_addrs(conns: Seq<NetworkConnection>) -> Seq<Seq<char>>
    decreases conns.len(),
{
    if conns.len() == 0 {
        Seq::empty()
    } else {
        let r = remote_addrs(conns.drop_last());
        let a = conns.last().remote_addr@;
        if a.len() == 0 || r.contains(a) { r } else { r.push(a) }
    }
}

pub open spec fn key_of(s: SnapshotView) -> HistoryKey {
    (s.pid, s.start_time)
}

pub open spec fn is_current_key(current: Map<Pid, SnapshotView>, k: HistoryKey) -> bool {
    current.contains_key(k.0) && current[k.0].start_time == k.1
}

/// The state once the keys that went stale at the previous refresh have
/// had their history and connection memory dropped.
pub open spec fn drained(m: IntelModel) -> IntelModel {
    IntelModel {
        current: m.current,
        history: m.history.remove_keys(m.stale),
        seen: m.seen.remove_keys(m.stale),
        timeline: m.timeline,
        stale: Set::empty(),
        history_capacity: m.history_capacity,
        timeline_capacity: m.timeline_capacity,
    }
}

/// `s` as recorded at `now`: when its key has earlier samples, its CPU
/// utilization is computed from the tick delta since the latest of them.
pub open spec fn observed(m0: IntelModel, s: SnapshotView, now: i64) -> SnapshotView {
    let k = key_of(s);
    if m0.history.contains_key(k) && m0.history[k].len() > 0 {
        let prev = m0.history[k].last();
        SnapshotView {
            cpu: CpuStats {
                percent_centi: spec_cpu_percent_centi(
                    prev.1.cpu.spec_total_ticks(),
                    s.cpu.spec_total_ticks(),
                    now - prev.0,
                ) as u64,
                ..s.cpu
            },
            ..s
        }
    } else {
        s
    }
}

pub open spec fn snapshots_of(rs: Seq<ProcessReading>) -> Seq<SnapshotView> {
    rs.map_values(|r: ProcessReading| r.snapshot@)
}

pub open spec fn conns_of(r: ProcessReading) -> Option<Seq<NetworkConnection>> {
    match r.connections {
        Some(v) => Some(v@),
        None => None,
    }
}

/// The lifecycle events of a reading: `Started` unless the same
/// `(pid, start_time)` was live at the previous refresh, then `NewChild`
/// for its parent when the parent is known (live before, or read earlier
/// in this pass).
pub open spec fn lifecycle_events(m0: IntelModel, prior: Seq<SnapshotView>, s: SnapshotView, now: i64) -> Seq<EventView> {
    if is_current_key(m0.current, key_of(s)) {
        Seq::empty()
    } else if m0.current.contains_key(s.ppid) || exists|j: int| 0 <= j < prior.len() && #[trigger] prior[j].pid == s.ppid {
        seq![started_event(s, now), child_event(s, now)]
    } else {
        seq![started_event(s, now)]
    }
}

/// The memory-growth event of a reading: when some earlier sample of its
/// key is at least the growth window old, the latest such sample is the
/// baseline, and RSS grew from it by at least the threshold.
pub open spec fn growth_events(m0: IntelModel, s: SnapshotView, now: i64) -> Seq<EventView> {
    let k = key_of(s);
    if !m0.history.contains_key(k) {
        Seq::empty()
    } else {
        let h = m0.history[k];
        let b = baseline_index(h, now);
        if b >= 0 && growth_crosses(h[b].1.memory.rss as int, s.memory.rss as int) {
            seq![growth_event(s, h[b].1.memory.rss as int, now)]
        } else {
            Seq::empty()
        }
    }
}

/// The addresses a key had been seen connected to, before this refresh.
pub open spec fn seen_before(m0: IntelModel, k: HistoryKey) -> Set<Seq<char>> {
    if m0.seen.contains_key(k) { m0.seen[k] } else { Set::empty() }
}

/// One `NewConnection` event per remote address of the reading that was
/// not among the addresses seen at the previous refresh.
pub open spec fn connection_events(m0: IntelModel, s: SnapshotView, conns: Option<Seq<NetworkConnection>>, now: i64) -> Seq<EventView> {
    match conns {
        None => Seq::empty(),
        Some(cs) => {
            let seen = seen_before(m0, key_of(s));
            remote_addrs(cs).filter(|a: Seq<char>| !seen.contains(a)).map_values(|a: Seq<char>| connection_event(s, a, now))
        },
    }
}

/// All events of reading `i`, in order.
pub open spec fn reading_events(m0: IntelModel, rs: Seq<ProcessReading>, i: int, now: i64) -> Seq<EventView> {
    let s = rs[i].snapshot@;
    lifecycle_events(m0, snapshots_of(rs).take(i), s, now) + growth_events(m0, s, now)
        + connection_events(m0, s, conns_of(rs[i]), now)
}

/// The events of the first `n` readings, in reading order.
pub open spec fn readings_events(m0: IntelModel, rs: Seq<ProcessReading>, n: int, now: i64) -> Seq<EventView>
    decreases n,
{
    if n <= 0 {
        Seq::empty()
    } else {
        readings_events(m0, rs, n - 1, now) + reading_events(m0, rs, n - 1, now)
    }
}

/// The pids of the readings are pairwise distinct.
pub open spec fn distinct_pids(rs: Seq<ProcessReading>) -> bool {
    forall|i: int, j: int| 0 <= i < rs.len() && 0 <= j < rs.len() && i != j
        ==> #[trigger] rs[i].snapshot.pid != #[trigger] rs[j].snapshot.pid
}

/// The keys of the readings.
pub open spec fn reading_keys(rs: Seq<ProcessReading>) -> Set<HistoryKey> {
    Set::new(|k: HistoryKey| exists|i: int| 0 <= i < rs.len() && key_of(#[trigger] rs[i].snapshot@) == k)
}

/// The keys that were live at the previous refresh.
pub open spec fn live_keys(current: Map<Pid, SnapshotView>) -> Set<HistoryKey> {
    Set::new(|k: HistoryKey| is_current_key(current, k))
}

/// One `Exited` event for each key of `ks`, in order.
pub open spec fn exit_events(ks: Seq<HistoryKey>, now: i64) -> Seq<EventView> {
    ks.map_values(|k: HistoryKey| exit_event(k.0, now))
}

/// The state `m2` is `m` refreshed with the readings `rs` at `now`.
pub open spec fn refreshed(m: IntelModel, rs: Seq<ProcessReading>, now: i64, m2: IntelModel) -> bool {
    let m0 = drained(m);
    let exited = live_keys(m.current).difference(reading_keys(rs));
    &&& forall|p: Pid| #[trigger] m2.current.contains_key(p)
        <==> exists|i: int| 0 <= i < rs.len() && rs[i].snapshot.pid == p
    &&& forall|i: int| 0 <= i < rs.len() ==> m2.current[#[trigger] rs[i].snapshot.pid] == observed(m0, rs[i].snapshot@, now)
    &&& forall|k: HistoryKey| #[trigger] m2.history.contains_key(k)
        <==> (m0.history.contains_key(k) || reading_keys(rs).contains(k))
    &&& forall|k: HistoryKey| #[trigger] m2.history.contains_key(k) && !reading_keys(rs).contains(k)
        ==> m2.history[k] == m0.history[k]
    &&& forall|i: int| 0 <= i < rs.len() ==> m2.history[key_of(#[trigger] rs[i].snapshot@)] == keep_last(
        (if m0.history.contains_key(key_of(rs[i].snapshot@)) { m0.history[key_of(rs[i].snapshot@)] } else { Seq::empty() })
            .push((now, observed(m0, rs[i].snapshot@, now))),
        m.history_capacity,
    )
    &&& forall|k: HistoryKey| #[trigger] m2.seen.contains_key(k)
        <==> (m0.seen.contains_key(k) || exists|i: int| 0 <= i < rs.len() && key_of(#[trigger] rs[i].snapshot@) == k && rs[i].connections is Some)
    &&& forall|k: HistoryKey| #[trigger] m2.seen.contains_key(k)
        && !(exists|i: int| 0 <= i < rs.len() && key_of(#[trigger] rs[i].snapshot@) == k && rs[i].connections is Some)
        ==> m2.seen[k] == m0.seen[k]
    &&& forall|i: int| 0 <= i < rs.len() && #[trigger] rs[i].connections is Some
        ==> m2.seen[key_of(rs[i].snapshot@)] == remote_addrs(conns_of(rs[i])->0).to_set()
    &&& m2.stale == exited
    &&& exists|ks: Seq<HistoryKey>| ks.no_duplicates() && #[trigger] ks.to_set() == exited
        && m2.timeline == keep_last(
        m.timeline + readings_events(m0, rs, rs.len() as int, now) + exit_events(ks, now),
        m.timeline_capacity,
    )
    &&& m2.history_capacity == m.history_capacity
    &&& m2.timeline_capacity == m.timeline_capacity
}

/// Owns everything derived from repeated refreshes: the current process
/// map, per-process history, connection memory and a running timeline.
pub struct ProcessIntelligence {
    current: HashMap<Pid, ProcessSnapshot>,
    history: HashMap<Pid, HashMap<u64, VecDeque<(i64, ProcessSnapshot)>>>,
    connections_seen: HashMap<Pid, HashMap<u64, Vec<String>>>,
    timeline: VecDeque<TimelineEvent>,
    /// Keys that exited at the previous refresh. Their history is kept for
    /// exactly one more refresh, so an investigation right after an exit
    /// still sees what led up to it, and is dropped then.
    stale_keys: Vec<HistoryKey>,
    history_capacity: usize,
    timeline_capacity: usize,
}

pub open spec fn sample_view(e: (i64, ProcessSnapshot)) -> (i64, SnapshotView) {
    (e.0, e.1@)
}

impl View for ProcessIntelligence {
    type V = IntelModel;

    closed spec fn view(&self) -> IntelModel {
        IntelModel {
            current: self.current@.map_values(|s: ProcessSnapshot| s@),
            history: Map::new(
                |k: HistoryKey| self.history@.contains_key(k.0) && self.history@[k.0]@.contains_key(k.1),
                |k: HistoryKey| self.history@[k.0]@[k.1]@.map_values(|e: (i64, ProcessSnapshot)| sample_view(e)),
            ),
            seen: Map::new(
                |k: HistoryKey| self.connections_seen@.contains_key(k.0) && self.connections_seen@[k.0]@.contains_key(k.1),
                |k: HistoryKey| self.connections_seen@[k.0]@[k.1]@.map_values(|a: String| a@).to_set(),
            ),
            timeline: self.timeline@.map_values(|e: TimelineEvent| e@),
            stale: self.stale_keys@.to_set(),
            history_capacity: self.history_capacity as nat,
            timeline_capacity: self.timeline_capacity as nat,
        }
    }
}

impl ProcessIntelligence {
    /// The invariant every refresh keeps: each current snapshot is stored
    /// under its own pid; every key with history is live or went stale at
    /// the last refresh; stale keys are not live, and no two share a pid;
    /// the capacities are the defaults, no run holds more samples than the
    /// history capacity, and the timeline holds no more events than its own.
    pub closed spec fn wf(&self) -> bool {
        let m = self@;
        &&& forall|p: Pid| #[trigger] m.current.contains_key(p) ==> m.current[p].pid == p
        &&& forall|p: Pid| #[trigger] self.current@.contains_key(p) ==> self.current@[p].pid == p
        &&& forall|k: HistoryKey| #[trigger] m.history.contains_key(k)
            ==> is_current_key(m.current, k) || m.stale.contains(k)
        &&& forall|k: HistoryKey| #[trigger] m.stale.contains(k) ==> !is_current_key(m.current, k)
        &&& forall|k1: HistoryKey, k2: HistoryKey| #[trigger] m.stale.contains(k1) && #[trigger] m.stale.contains(k2)
            && k1.0 == k2.0 ==> k1 == k2
        &&& self.stale_keys@.no_duplicates()
        &&& self.history_capacity == DEFAULT_HISTORY_CAPACITY
        &&& self.timeline_capacity == DEFAULT_TIMELINE_CAPACITY
        &&& forall|k: HistoryKey| #[trigger] m.history.contains_key(k) ==> m.history[k].len() <= m.history_capacity
        &&& m.timeline.len() <= m.timeline_capacity
    }

    /// A fresh intelligence with nothing observed yet.
    pub fn new() -> (r: Self)
        ensures
            r.wf(),
            r@.current.is_empty(),
            r@.history.is_empty(),
            r@.seen.is_empty(),
            r@.timeline.len() == 0,
            r@.stale.is_empty(),
            r@.history_capacity == DEFAULT_HISTORY_CAPACITY,
            r@.timeline_capacity == DEFAULT_TIMELINE_CAPACITY,
    {
        let r = ProcessIntelligence {
            current: HashMap::new(),
            history: HashMap::new(),
            connections_seen: HashMap::new(),
            timeline: VecDeque::new(),
            stale_keys: Vec::new(),
            history_capacity: DEFAULT_HISTORY_CAPACITY,
            timeline_capacity: DEFAULT_TIMELINE_CAPACITY,
        };
        assert(r@.current =~= Map::empty());
        assert(r@.history =~= Map::empty());
        assert(r@.seen =~= Map::empty());
        assert(r@.stale =~= Set::empty());
        r
    }
}


/// CPU utilization in hundredths of a percent (see
/// `spec_cpu_percent_centi`).
fn cpu_percent_centi(prev_ticks: u128, curr_ticks: u128, elapsed: i128) -> (r: u64)
    requires
        prev_ticks <= 2 * (u64::MAX as int),
        curr_ticks <= 2 * (u64::MAX as int),
        -0x1_0000_0000_0000_0000 <= elapsed <= 0x1_0000_0000_0000_0000,
    ensures
        r == spec_cpu_percent_centi(prev_ticks as int, curr_ticks as int, elapsed as int),
{
    if elapsed <= 0 {
        return 0;
    }
    let delta: u128 = if curr_ticks > prev_ticks { curr_ticks - prev_ticks } else { 0 };
    let num: u128 = delta * 10000;
    let e: u128 = elapsed as u128;
    assert(e == elapsed);
    assert(e <= 0x1_0000_0000_0000_0000);
    let den: u128 = 100 * e;
    let v = num / den;
    if v > u64::MAX as u128 {
        u64::MAX
    } else {
        v as u64
    }
}

fn started_description(name: &String, pid: Pid) -> (d: String)
    ensures
        d@ == started_text(name@, pid),
{
    let mut d = name.clone();
    d.append(" (");
    push_signed(&mut d, pid as i64);
    d.append(") started");
    d
}

fn new_child_description(child: Pid, name: &String) -> (d: String)
    ensures
        d@ == new_child_text(child, name@),
{
    let mut d = String::from_str("new child process ");
    push_signed(&mut d, child as i64);
    d.append(" (");
    d.append(name.as_str());
    d.append(")");
    d
}

fn growth_description(name: &String, pid: Pid, base: u64, rss: u64) -> (d: String)
    requires
        base > 0,
    ensures
        d@ == growth_text(name@, pid, base as int, rss as int),
{
    let mut d = name.clone();
    d.append(" (");
    push_signed(&mut d, pid as i64);
    d.append(") RSS grew ");
    push_ratio(&mut d, (rss as i128 - base as i128) * 100, base as i128);
    d.append("% over the last ");
    push_decimal(&mut d, (DEFAULT_GROWTH_WINDOW_SECS / 60) as u128);
    d.append("m");
    d
}

fn connected_description(name: &String, pid: Pid, addr: &String) -> (d: String)
    ensures
        d@ == connected_text(name@, pid, addr@),
{
    let mut d = name.clone();
    d.append(" (");
    push_signed(&mut d, pid as i64);
    d.append(") connected to ");
    d.append(addr.as_str());
    d
}

fn exited_description(pid: Pid) -> (d: String)
    ensures
        d@ == exited_text(pid),
{
    let mut d = String::from_str("process ");
    push_signed(&mut d, pid as i64);
    d.append(" exited");
    d
}


impl ProcessIntelligence {
    /// Removes the history of `k`.
    fn forget_history(&mut self, k: HistoryKey)
        ensures
            final(self)@.history == old(self)@.history.remove(k),
            final(self)@.seen == old(self)@.seen,
            final(self).current == old(self).current,
            final(self).connections_seen == old(self).connections_seen,
            final(self).timeline == old(self).timeline,
            final(self).stale_keys == old(self).stale_keys,
            final(self).history_capacity == old(self).history_capacity,
            final(self).timeline_capacity == old(self).timeline_capacity,
    {
        let ghost before = self.history@;
        match self.history.remove(&k.0) {
            Some(mut inner) => {
                inner.remove(&k.1);
                self.history.insert(k.0, inner);
            },
            None => {},
        }
        proof {
            assert(self@.history =~= old(self)@.history.remove(k)) by {
                assert forall|kk: HistoryKey| #[trigger] self@.history.contains_key(kk)
                    <==> old(self)@.history.remove(k).contains_key(kk) by {
                    if kk.0 == k.0 && before.contains_key(k.0) {
                        assert(self.history@[kk.0]@ == before[k.0]@.remove(k.1));
                    }
                }
                assert forall|kk: HistoryKey| #[trigger] self@.history.contains_key(kk)
                    implies self@.history[kk] == old(self)@.history.remove(k)[kk] by {
                    if kk.0 == k.0 {
                        assert(self.history@[kk.0]@ == before[k.0]@.remove(k.1));
                        assert(self.history@[kk.0]@[kk.1] == before[k.0]@[kk.1]);
                    }
                }
            }
        }
    }

    /// Removes the connection memory of `k`.
    fn forget_seen(&mut self, k: HistoryKey)
        ensures
            final(self)@.seen == old(self)@.seen.remove(k),
            final(self)@.history == old(self)@.history,
            final(self).current == old(self).current,
            final(self).history == old(self).history,
            final(self).timeline == old(self).timeline,
            final(self).stale_keys == old(self).stale_keys,
            final(self).history_capacity == old(self).history_capacity,
            final(self).timeline_capacity == old(self).timeline_capacity,
    {
        let ghost before = self.connections_seen@;
        match self.connections_seen.remove(&k.0) {
            Some(mut inner) => {
                inner.remove(&k.1);
                self.connections_seen.insert(k.0, inner);
            },
            None => {},
        }
        proof {
            assert(self@.seen =~= old(self)@.seen.remove(k)) by {
                assert forall|kk: HistoryKey| #[trigger] self@.seen.contains_key(kk)
                    <==> old(self)@.seen.remove(k).contains_key(kk) by {
                    if kk.0 == k.0 && before.contains_key(k.0) {
                        assert(self.connections_seen@[kk.0]@ == before[k.0]@.remove(k.1));
                    }
                }
                assert forall|kk: HistoryKey| #[trigger] self@.seen.contains_key(kk)
                    implies self@.seen[kk] == old(self)@.seen.remove(k)[kk] by {
                    if kk.0 == k.0 {
                        assert(self.connections_seen@[kk.0]@ == before[k.0]@.remove(k.1));
                        assert(self.connections_seen@[kk.0]@[kk.1] == before[k.0]@[kk.1]);
                    }
                }
            }
        }
    }

    /// Drops the history and connection memory of the keys that went stale
    /// at the previous refresh.
    fn drain_stale(&mut self)
        ensures
            final(self)@ == drained(old(self)@),
            final(self).current == old(self).current,
            final(self).timeline == old(self).timeline,
            final(self).stale_keys@.len() == 0,
    {
        let ghost m = self@;
        let mut j: usize = 0;
        while j < self.stale_keys.len()
            invariant
                j <= self.stale_keys@.len(),
                self.stale_keys == old(self).stale_keys,
                self.current == old(self).current,
                self.timeline == old(self).timeline,
                self.history_capacity == old(self).history_capacity,
                self.timeline_capacity == old(self).timeline_capacity,
                m == old(self)@,
                self@.history == m.history.remove_keys(self.stale_keys@.take(j as int).to_set()),
                self@.seen == m.seen.remove_keys(self.stale_keys@.take(j as int).to_set()),
            decreases self.stale_keys@.len() - j,
        {
            let k = self.stale_keys[j];
            self.forget_history(k);
            self.forget_seen(k);
            proof {
                let t0 = self.stale_keys@.take(j as int);
                let t1 = self.stale_keys@.take(j + 1);
                assert(t1 =~= t0 + seq![k]);
                Seq::lemma_to_set_insert_commutes(t0, k);
                assert(t1.to_set() =~= t0.to_set().insert(k));
                assert(self@.history =~= m.history.remove_keys(t1.to_set()));
                assert(self@.seen =~= m.seen.remove_keys(t1.to_set()));
            }
            j += 1;
        }
        self.stale_keys = Vec::new();
        proof {
            assert(old(self).stale_keys@.take(j as int) =~= old(self).stale_keys@);
            assert(self@.stale =~= Set::empty());
            assert(self@.current == m.current);
            assert(self@.timeline == m.timeline);
        }
    }
}


/// The values of a sequence of events.
pub open spec fn events_view(v: Seq<TimelineEvent>) -> Seq<EventView> {
    v.map_values(|e: TimelineEvent| e@)
}

proof fn lemma_events_push(v: Seq<TimelineEvent>, e: TimelineEvent)
    ensures
        events_view(v.push(e)) == events_view(v).push(e@),
{
    assert(events_view(v.push(e)) =~= events_view(v).push(e@));
}

fn push_event(events: &mut Vec<TimelineEvent>, pid: Pid, at: i64, kind: TimelineEventKind, description: String)
    ensures
        events_view(final(events)@) == events_view(old(events)@).push(
            EventView { pid, at, kind: kind@, description: description@ },
        ),
{
    let e = TimelineEvent { pid, at, kind, description };
    proof { lemma_events_push(events@, e); }
    events.push(e);
}

impl ProcessIntelligence {
    /// Appends the lifecycle events of a reading (see `lifecycle_events`);
    /// `new_current` holds the readings already processed in this pass.
    fn lifecycle(
        &self,
        s: &ProcessSnapshot,
        new_current: &HashMap<Pid, ProcessSnapshot>,
        now: i64,
        events: &mut Vec<TimelineEvent>,
        Ghost(prior): Ghost<Seq<SnapshotView>>,
    )
        requires
            forall|p: Pid| #[trigger] new_current@.contains_key(p)
                <==> exists|j: int| 0 <= j < prior.len() && #[trigger] prior[j].pid == p,
        ensures
            events_view(final(events)@) == events_view(old(events)@)
                + lifecycle_events(self@, prior, s@, now),
    {
        let ghost m0 = self@;
        let previously_live = match self.current.get(&s.pid) {
            Some(prev) => prev.start_time == s.start_time,
            None => false,
        };
        assert(previously_live == is_current_key(m0.current, key_of(s@)));
        if previously_live {
            assert(events_view(events@) =~= events_view(events@) + lifecycle_events(m0, prior, s@, now));
            return;
        }
        let ghost e0 = events_view(events@);
        push_event(events, s.pid, now, TimelineEventKind::Started, started_description(&s.name, s.pid));
        let parent_known = self.current.contains_key(&s.ppid) || new_current.contains_key(&s.ppid);
        if parent_known {
            push_event(
                events,
                s.ppid,
                now,
                TimelineEventKind::NewChild { child_pid: s.pid },
                new_child_description(s.pid, &s.name),
            );
            assert(events_view(events@) =~= e0 + lifecycle_events(m0, prior, s@, now));
        } else {
            assert(!(exists|j: int| 0 <= j < prior.len() && #[trigger] prior[j].pid == s.ppid));
            assert(events_view(events@) =~= e0 + lifecycle_events(m0, prior, s@, now));
        }
    }
}


/// The values of a sample sequence.
pub open spec fn samples_view(h: Seq<(i64, ProcessSnapshot)>) -> Seq<(i64, SnapshotView)> {
    h.map_values(|e: (i64, ProcessSnapshot)| sample_view(e))
}

/// Finds the latest sample at least the growth window before `now`.
fn find_baseline(h: &VecDeque<(i64, ProcessSnapshot)>, now: i64) -> (r: Option<usize>)
    ensures
        match r {
            Some(b) => b < h@.len() && b == baseline_index(samples_view(h@), now),
            None => baseline_index(samples_view(h@), now) == -1,
        },
{
    let ghost hv = samples_view(h@);
    let mut i: usize = h.len();
    assert(hv.take(i as int) =~= hv);
    while i > 0
        invariant
            i <= h@.len(),
            hv == samples_view(h@),
            baseline_index(hv, now) == baseline_index(hv.take(i as int), now),
        decreases i,
    {
        let at = h[i - 1].0;
        assert(hv.take(i as int).last() == hv[i - 1]);
        if now as i128 - at as i128 >= DEFAULT_GROWTH_WINDOW_SECS as i128 {
            return Some(i - 1);
        }
        assert(hv.take(i as int).drop_last() =~= hv.take(i - 1));
        i -= 1;
    }
    None
}

impl ProcessIntelligence {
    /// Computes the CPU utilization of a reading from its key's latest
    /// sample (see `observed`) and appends its memory-growth event (see
    /// `growth_events`).
    fn observe(&self, s: &mut ProcessSnapshot, now: i64, events: &mut Vec<TimelineEvent>)
        ensures
            final(s)@ == observed(self@, old(s)@, now),
            events_view(final(events)@) == events_view(old(events)@) + growth_events(self@, old(s)@, now),
    {
        let ghost m0 = self@;
        let ghost s0 = s@;
        let ghost k = key_of(s@);
        let samples = match self.history.get(&s.pid) {
            Some(inner) => inner.get(&s.start_time),
            None => None,
        };
        match samples {
            Some(h) => {
                assert(m0.history.contains_key(k));
                assert(m0.history[k] == samples_view(h@));
                let n = h.len();
                if n > 0 {
                    let prev = &h[n - 1];
                    assert(samples_view(h@).last() == sample_view(*prev));
                    let prev_ticks = prev.1.cpu.utime_ticks as u128 + prev.1.cpu.stime_ticks as u128;
                    let curr_ticks = s.cpu.utime_ticks as u128 + s.cpu.stime_ticks as u128;
                    let elapsed = now as i128 - prev.0 as i128;
                    s.cpu.percent_centi = cpu_percent_centi(prev_ticks, curr_ticks, elapsed);
                }
                assert(s@ == observed(m0, s0, now));
                match find_baseline(h, now) {
                    Some(b) => {
                        let base = h[b].1.memory.rss;
                        assert(samples_view(h@)[b as int].1.memory.rss == base);
                        let rss = s.memory.rss;
                        if base > 0 && (rss as i128 - base as i128) * 100 >= (DEFAULT_GROWTH_THRESHOLD_PERCENT as i128) * (base as i128) {
                            let g: u128 = ((rss - base) as u128) * 10000 / (base as u128);
                            let centi: u64 = if g > u64::MAX as u128 { u64::MAX } else { g as u64 };
                            assert(centi == growth_centi(base as int, rss as int));
                            let ghost e0 = events_view(events@);
                            push_event(
                                events,
                                s.pid,
                                now,
                                TimelineEventKind::MemoryGrowthThresholdCrossed {
                                    percent_growth_centi: centi,
                                    window_secs: DEFAULT_GROWTH_WINDOW_SECS as u64,
                                },
                                growth_description(&s.name, s.pid, base, rss),
                            );
                            assert(events_view(events@) =~= e0 + growth_events(m0, s0, now));
                        } else {
                            assert(events_view(events@) =~= events_view(events@) + growth_events(m0, s0, now));
                        }
                    },
                    None => {
                        assert(events_view(events@) =~= events_view(events@) + growth_events(m0, s0, now));
                    },
                }
            },
            None => {
                assert(!m0.history.contains_key(k));
                assert(events_view(events@) =~= events_view(events@) + growth_events(m0, s0, now));
            },
        }
    }
}


/// The character sequences of a list of strings.
pub open spec fn strings_view(v: Seq<String>) -> Seq<Seq<char>> {
    v.map_values(|a: String| a@)
}

/// Whether some string of `v` equals `a`.
fn contains_string(v: &Vec<String>, a: &String) -> (b: bool)
    ensures
        b == strings_view(v@).contains(a@),
{
    let mut i: usize = 0;
    while i < v.len()
        invariant
            i <= v@.len(),
            forall|j: int| 0 <= j < i ==> v@[j]@ != a@,
        decreases v@.len() - i,
    {
        if v[i] == *a {
            assert(strings_view(v@)[i as int] == a@);
            return true;
        }
        i += 1;
    }
    assert forall|j: int| 0 <= j < strings_view(v@).len() implies strings_view(v@)[j] != a@ by {
        assert(strings_view(v@)[j] == v@[j]@);
    }
    false
}

/// The distinct, non-empty remote addresses of `conns` (see
/// `remote_addrs`).
fn distinct_remote_addrs(conns: &Vec<NetworkConnection>) -> (r: Vec<String>)
    ensures
        strings_view(r@) == remote_addrs(conns@),
{
    let mut out: Vec<String> = Vec::new();
    let mut j: usize = 0;
    while j < conns.len()
        invariant
            j <= conns@.len(),
            strings_view(out@) == remote_addrs(conns@.take(j as int)),
        decreases conns@.len() - j,
    {
        let a = &conns[j].remote_addr;
        assert(conns@.take(j + 1).drop_last() =~= conns@.take(j as int));
        assert(conns@.take(j + 1).last() == conns@[j as int]);
        if !a.as_str().is_empty() && !contains_string(&out, a) {
            out.push(a.clone());
            assert(strings_view(out@) =~= remote_addrs(conns@.take(j as int)).push(a@));
        }
        j += 1;
    }
    assert(conns@.take(conns@.len() as int) =~= conns@);
    out
}

impl ProcessIntelligence {
    /// Appends a `NewConnection` event for each remote address of the
    /// reading not seen at the previous refresh, and remembers the
    /// reading's addresses (see `connection_events`). Nothing happens when
    /// the connections could not be read.
    fn track_connections(
        &mut self,
        s: &ProcessSnapshot,
        conns: &Option<Vec<NetworkConnection>>,
        now: i64,
        events: &mut Vec<TimelineEvent>,
    )
        ensures
            events_view(final(events)@) == events_view(old(events)@) + connection_events(
                old(self)@,
                s@,
                match conns { Some(v) => Some(v@), None => None },
                now,
            ),
            match conns {
                Some(cs) => final(self)@.seen == old(self)@.seen.insert(key_of(s@), remote_addrs(cs@).to_set()),
                None => final(self)@.seen == old(self)@.seen,
            },
            final(self)@.history == old(self)@.history,
            final(self).current == old(self).current,
            final(self).history == old(self).history,
            final(self).timeline == old(self).timeline,
            final(self).stale_keys == old(self).stale_keys,
            final(self).history_capacity == old(self).history_capacity,
            final(self).timeline_capacity == old(self).timeline_capacity,
    {
        let ghost m0 = self@;
        let ghost k = key_of(s@);
        let cs = match conns {
            Some(cs) => cs,
            None => {
                assert(events_view(events@) =~= events_view(events@) + connection_events(m0, s@, None, now));
                return;
            },
        };
        let addrs = distinct_remote_addrs(cs);
        let ghost seen = seen_before(m0, k);
        let ghost pred = |a: Seq<char>| !seen.contains(a);
        let ghost ra = remote_addrs(cs@);
        let ghost e0 = events_view(events@);
        let empty: Vec<String> = Vec::new();
        let previous: &Vec<String> = match self.connections_seen.get(&s.pid) {
            Some(inner) => match inner.get(&s.start_time) {
                Some(v) => v,
                None => &empty,
            },
            None => &empty,
        };
        assert(strings_view(previous@).to_set() =~= seen);
        let mut j: usize = 0;
        while j < addrs.len()
            invariant
                j <= addrs@.len(),
                strings_view(addrs@) == ra,
                strings_view(previous@).to_set() == seen,
                pred == (|a: Seq<char>| !seen.contains(a)),
                events_view(events@) == e0 + ra.take(j as int).filter(pred).map_values(
                    |a: Seq<char>| connection_event(s@, a, now),
                ),
            decreases addrs@.len() - j,
        {
            let a = &addrs[j];
            assert(ra[j as int] == a@);
            assert(ra.take(j + 1) =~= ra.take(j as int).push(a@));
            proof { ra.take(j as int).lemma_filter_push(a@, pred); }
            let ghost before = events_view(events@);
            if !contains_string(previous, a) {
                assert(!strings_view(previous@).contains(a@));
                assert(!seen.contains(a@));
                push_event(
                    events,
                    s.pid,
                    now,
                    TimelineEventKind::NewConnection { remote_addr: a.clone() },
                    connected_description(&s.name, s.pid, a),
                );
                assert(events_view(events@) =~= e0 + ra.take(j + 1).filter(pred).map_values(
                    |x: Seq<char>| connection_event(s@, x, now),
                ));
            } else {
                assert(strings_view(previous@).to_set().contains(a@));
                assert(events_view(events@) =~= e0 + ra.take(j + 1).filter(pred).map_values(
                    |x: Seq<char>| connection_event(s@, x, now),
                ));
            }
            j += 1;
        }
        assert(ra.take(addrs@.len() as int) =~= ra);
        let mut inner = match self.connections_seen.remove(&s.pid) {
            Some(inner) => inner,
            None => HashMap::new(),
        };
        inner.insert(s.start_time, addrs);
        self.connections_seen.insert(s.pid, inner);
        proof {
            let target = m0.seen.insert(k, ra.to_set());
            assert forall|kk: HistoryKey| #[trigger] self@.seen.contains_key(kk) <==> target.contains_key(kk) by {}
            assert forall|kk: HistoryKey| #[trigger] self@.seen.contains_key(kk) implies self@.seen[kk] == target[kk] by {
                if kk == k {
                    assert(self@.seen[kk] == strings_view(addrs@).to_set());
                }
            }
            assert(self@.seen =~= target);
            assert(self@.history =~= m0.history);
        }
    }
}


/// The samples of `k` so far, empty when it has none.
pub open spec fn samples_or_empty(m: IntelModel, k: HistoryKey) -> Seq<(i64, SnapshotView)> {
    if m.history.contains_key(k) { m.history[k] } else { Seq::empty() }
}

impl ProcessIntelligence {
    /// Appends `(now, s)` to the samples of `s`'s key, dropping the oldest
    /// beyond the history capacity.
    fn record(&mut self, s: ProcessSnapshot, now: i64)
        ensures
            final(self)@.history == old(self)@.history.insert(
                key_of(s@),
                keep_last(samples_or_empty(old(self)@, key_of(s@)).push((now, s@)), old(self)@.history_capacity),
            ),
            final(self)@.seen == old(self)@.seen,
            final(self).current == old(self).current,
            final(self).connections_seen == old(self).connections_seen,
            final(self).timeline == old(self).timeline,
            final(self).stale_keys == old(self).stale_keys,
            final(self).history_capacity == old(self).history_capacity,
            final(self).timeline_capacity == old(self).timeline_capacity,
    {
        let ghost m0 = self@;
        let ghost k = key_of(s@);
        let ghost sv = s@;
        let pid = s.pid;
        let st = s.start_time;
        let mut inner = match self.history.remove(&pid) {
            Some(inner) => inner,
            None => HashMap::new(),
        };
        let mut deque = match inner.remove(&st) {
            Some(d) => d,
            None => VecDeque::new(),
        };
        assert(samples_view(deque@) == samples_or_empty(m0, k));
        deque.push_back((now, s));
        let ghost full = samples_view(deque@);
        assert(full =~= samples_or_empty(m0, k).push((now, sv)));
        while deque.len() > self.history_capacity
            invariant
                samples_view(deque@) == full.subrange(full.len() - deque@.len(), full.len() as int),
                deque@.len() <= full.len(),
                deque@.len() >= self.history_capacity || deque@.len() == full.len(),
            decreases deque@.len(),
        {
            let ghost before = deque@;
            let popped = deque.pop_front();
            assert(popped is Some);
            assert(deque@ == before.subrange(1, before.len() as int));
            assert forall|i: int| 0 <= i < deque@.len() implies samples_view(deque@)[i] == samples_view(before)[i + 1] by {
                assert(deque@[i] == before[i + 1]);
            }
            assert(samples_view(deque@) =~= full.subrange(full.len() - deque@.len(), full.len() as int));
        }
        assert(samples_view(deque@) =~= keep_last(full, m0.history_capacity));
        inner.insert(st, deque);
        self.history.insert(pid, inner);
        proof {
            let target = m0.history.insert(k, keep_last(full, m0.history_capacity));
            assert forall|kk: HistoryKey| #[trigger] self@.history.contains_key(kk) <==> target.contains_key(kk) by {}
            assert forall|kk: HistoryKey| #[trigger] self@.history.contains_key(kk) implies self@.history[kk] == target[kk] by {}
            assert(self@.history =~= target);
            assert(self@.seen =~= m0.seen);
        }
    }
}


impl ProcessIntelligence {
    /// Appends an `Exited` event for each key live at the previous refresh
    /// that `new_current` no longer holds, and returns those keys.
    fn exits(&self, new_current: &HashMap<Pid, ProcessSnapshot>, now: i64, events: &mut Vec<TimelineEvent>) -> (stale: Vec<HistoryKey>)
        requires
            forall|p: Pid| #[trigger] self.current@.contains_key(p) ==> self.current@[p].pid == p,
        ensures
            stale@.no_duplicates(),
            stale@.to_set() == live_keys(self@.current).difference(
                live_keys(new_current@.map_values(|s: ProcessSnapshot| s@)),
            ),
            events_view(final(events)@) == events_view(old(events)@) + exit_events(stale@, now),
    {
        let ghost cur = self@.current;
        let ghost newv = new_current@.map_values(|s: ProcessSnapshot| s@);
        let ghost gone = |p: Pid| !is_current_key(newv, (p, cur[p].start_time));
        let ghost keys = vstd::std_specs::iter::IteratorSpec::remaining(&vstd::std_specs::hash::spec_keys_iter(&self.current)).unref();
        let ghost e0 = events_view(events@);
        let mut stale: Vec<HistoryKey> = Vec::new();
        for k in it: self.current.keys()
            invariant
                it.seq().unref() == keys,
                cur == self@.current,
                newv == new_current@.map_values(|s: ProcessSnapshot| s@),
                gone == (|p: Pid| !is_current_key(newv, (p, cur[p].start_time))),
                forall|p: Pid| #[trigger] self.current@.contains_key(p) ==> self.current@[p].pid == p,
                stale@ == keys.take(it.index()).filter(gone).map_values(|p: Pid| (p, cur[p].start_time)),
                events_view(events@) == e0 + exit_events(stale@, now),
        {
            let pid = *k;
            assert(pid == keys[it.index()]);
            assert(keys.take(it.index() + 1) =~= keys.take(it.index()).push(pid));
            proof { keys.take(it.index()).lemma_filter_push(pid, gone); }
            let snap = self.current.get(&pid).unwrap();
            let st = snap.start_time;
            assert(cur[pid].start_time == st);
            let still_live = match new_current.get(&pid) {
                Some(n) => n.start_time == st,
                None => false,
            };
            assert(still_live == is_current_key(newv, (pid, st)));
            if !still_live {
                let ghost before = stale@;
                stale.push((pid, st));
                let ghost eb = events_view(events@);
                push_event(events, pid, now, TimelineEventKind::Exited { exit_reason: None }, exited_description(pid));
                assert(stale@ =~= keys.take(it.index() + 1).filter(gone).map_values(|p: Pid| (p, cur[p].start_time)));
                assert(exit_events(stale@, now) =~= exit_events(before, now).push(exit_event(pid, now)));
                assert(events_view(events@) =~= e0 + exit_events(stale@, now));
            } else {
                assert(stale@ =~= keys.take(it.index() + 1).filter(gone).map_values(|p: Pid| (p, cur[p].start_time)));
            }
        }
        proof {
            assert(keys.take(keys.len() as int) =~= keys);
            let f = keys.filter(gone);
            assert(keys.no_duplicates());
            assert(keys.to_set() == self.current@.dom());
            crate::seqs::lemma_filter_no_dup(keys, gone);
            assert forall|i: int, j: int| 0 <= i < stale@.len() && 0 <= j < stale@.len() && i != j implies stale@[i] != stale@[j] by {
                assert(stale@[i].0 == f[i] && stale@[j].0 == f[j]);
            }
            let target = live_keys(cur).difference(live_keys(newv));
            assert forall|kk: HistoryKey| #[trigger] stale@.to_set().contains(kk) <==> target.contains(kk) by {
                if stale@.to_set().contains(kk) {
                    let i = choose|i: int| 0 <= i < stale@.len() && stale@[i] == kk;
                    assert(stale@[i] == (f[i], cur[f[i]].start_time));
                    assert(f.contains(f[i]));
                    keys.lemma_filter_contains_rev(gone, f[i]);
                    keys.lemma_filter_pred(gone, i);
                    assert(self.current@.dom().contains(f[i]));
                }
                if target.contains(kk) {
                    assert(is_current_key(cur, kk));
                    assert(keys.to_set().contains(kk.0));
                    let w = choose|w: int| 0 <= w < keys.len() && keys[w] == kk.0;
                    keys.lemma_filter_contains(gone, w);
                    let i = choose|i: int| 0 <= i < f.len() && f[i] == kk.0;
                    assert(stale@[i] == kk);
                }
            }
            assert(stale@.to_set() =~= target);
        }
        stale
    }

    /// Appends `events` to the timeline, dropping the oldest beyond the
    /// timeline capacity.
    fn append_events(&mut self, events: Vec<TimelineEvent>)
        ensures
            final(self)@.timeline == keep_last(old(self)@.timeline + events_view(events@), old(self)@.timeline_capacity),
            final(self).current == old(self).current,
            final(self).history == old(self).history,
            final(self).connections_seen == old(self).connections_seen,
            final(self).stale_keys == old(self).stale_keys,
            final(self).history_capacity == old(self).history_capacity,
            final(self).timeline_capacity == old(self).timeline_capacity,
    {
        let ghost t0 = self@.timeline;
        let ghost ev = events_view(events@);
        let mut i: usize = 0;
        while i < events.len()
            invariant
                i <= events@.len(),
                ev == events_view(events@),
                events_view(self.timeline@) == t0 + ev.take(i as int),
                self.current == old(self).current,
                self.history == old(self).history,
                self.connections_seen == old(self).connections_seen,
                self.stale_keys == old(self).stale_keys,
                self.history_capacity == old(self).history_capacity,
                self.timeline_capacity == old(self).timeline_capacity,
            decreases events@.len() - i,
        {
            let e = events[i].clone();
            let ghost before = self.timeline@;
            assert(e == events@[i as int]);
            self.timeline.push_back(e);
            proof { lemma_events_push(before, e); }
            assert(ev.take(i + 1) =~= ev.take(i as int).push(e@));
            assert(events_view(self.timeline@) =~= t0 + ev.take(i + 1));
            i += 1;
        }
        let ghost full = t0 + ev;
        assert(ev.take(events@.len() as int) =~= ev);
        while self.timeline.len() > self.timeline_capacity
            invariant
                events_view(self.timeline@) == full.subrange(full.len() - self.timeline@.len(), full.len() as int),
                self.timeline@.len() <= full.len(),
                self.timeline@.len() >= self.timeline_capacity || self.timeline@.len() == full.len(),
                self.current == old(self).current,
                self.history == old(self).history,
                self.connections_seen == old(self).connections_seen,
                self.stale_keys == old(self).stale_keys,
                self.history_capacity == old(self).history_capacity,
                self.timeline_capacity == old(self).timeline_capacity,
            decreases self.timeline@.len(),
        {
            let ghost before = self.timeline@;
            let popped = self.timeline.pop_front();
            assert(popped is Some);
            assert(self.timeline@ == before.subrange(1, before.len() as int));
            assert forall|j: int| 0 <= j < self.timeline@.len() implies events_view(self.timeline@)[j] == events_view(before)[j + 1] by {
                assert(self.timeline@[j] == before[j + 1]);
            }
            assert(events_view(self.timeline@) =~= full.subrange(full.len() - self.timeline@.len(), full.len() as int));
        }
        assert(events_view(self.timeline@) =~= keep_last(full, self.timeline_capacity as nat));
    }
}


/// Some of the first `n` readings has key `k`.
pub open spec fn prefix_has_key(rs: Seq<ProcessReading>, n: int, k: HistoryKey) -> bool {
    exists|j: int| 0 <= j < n && key_of(#[trigger] rs[j].snapshot@) == k
}

/// Some of the first `n` readings has key `k` and readable connections.
pub open spec fn prefix_has_conns(rs: Seq<ProcessReading>, n: int, k: HistoryKey) -> bool {
    exists|j: int| 0 <= j < n && key_of(#[trigger] rs[j].snapshot@) == k && rs[j].connections is Some
}

/// Once every reading is processed, "some reading so far" is "some
/// reading".
proof fn lemma_seen_all_readings(
    before: Map<HistoryKey, Set<Seq<char>>>,
    after: Map<HistoryKey, Set<Seq<char>>>,
    rs: Seq<ProcessReading>,
)
    requires
        forall|k: HistoryKey| #[trigger] after.contains_key(k)
            <==> (before.contains_key(k) || prefix_has_conns(rs, rs.len() as int, k)),
        forall|k: HistoryKey| #[trigger] after.contains_key(k) && !prefix_has_conns(rs, rs.len() as int, k)
            ==> after[k] == before[k],
    ensures
        forall|k: HistoryKey| #[trigger] after.contains_key(k)
            <==> (before.contains_key(k) || exists|i: int| 0 <= i < rs.len() && key_of(#[trigger] rs[i].snapshot@) == k && rs[i].connections is Some),
        forall|k: HistoryKey| #[trigger] after.contains_key(k)
            && !(exists|i: int| 0 <= i < rs.len() && key_of(#[trigger] rs[i].snapshot@) == k && rs[i].connections is Some)
            ==> after[k] == before[k],
{
}

impl ProcessIntelligence {
    /// A full refresh pass: `readings` are what one walk over the process
    /// table read (a pid whose snapshot could not be read is simply left
    /// out), `now` the Unix time of the walk. The previous pass's stale keys
    /// are dropped first; each reading gets its CPU utilization from the
    /// tick delta since its key's latest sample, its lifecycle,
    /// memory-growth and new-connection events, and a new sample; every
    /// key live before but not read now gets an `Exited` event and stays
    /// for one more refresh as stale. See `refreshed` for the exact result.
    #[verifier::spinoff_prover]
    #[verifier::rlimit(40)]
    pub fn refresh_at(&mut self, now: i64, readings: Vec<ProcessReading>)
        requires
            old(self).wf(),
            distinct_pids(readings@),
        ensures
            final(self).wf(),
            refreshed(old(self)@, readings@, now, final(self)@),
    {
        let ghost m = self@;
        let ghost rs = readings@;
        self.drain_stale();
        let ghost m0 = self@;
        assert(m0 == drained(m));
        let mut new_current: HashMap<Pid, ProcessSnapshot> = HashMap::new();
        let mut pending: Vec<TimelineEvent> = Vec::new();
        let mut i: usize = 0;
        assert(events_view(pending@) =~= readings_events(m0, rs, 0, now));
        while i < readings.len()
            invariant
                rs == readings@,
                distinct_pids(rs),
                i <= rs.len(),
                m0 == drained(m),
                self@.current == m.current,
                self.current == old(self).current,
                self@.timeline == m.timeline,
                self@.stale == Set::<HistoryKey>::empty(),
                self.stale_keys@.len() == 0,
                self@.history_capacity == m.history_capacity,
                self@.timeline_capacity == m.timeline_capacity,
                forall|p: Pid| #[trigger] self.current@.contains_key(p) ==> self.current@[p].pid == p,
                forall|k: HistoryKey| #[trigger] self@.history.contains_key(k)
                    <==> (m0.history.contains_key(k) || prefix_has_key(rs, i as int, k)),
                forall|k: HistoryKey| #[trigger] self@.history.contains_key(k) && !prefix_has_key(rs, i as int, k)
                    ==> self@.history[k] == m0.history[k],
                forall|j: int| 0 <= j < i ==> self@.history[key_of(#[trigger] rs[j].snapshot@)] == keep_last(
                    samples_or_empty(m0, key_of(rs[j].snapshot@)).push((now, observed(m0, rs[j].snapshot@, now))),
                    m.history_capacity,
                ),
                forall|k: HistoryKey| #[trigger] self@.seen.contains_key(k)
                    <==> (m0.seen.contains_key(k) || prefix_has_conns(rs, i as int, k)),
                forall|k: HistoryKey| #[trigger] self@.seen.contains_key(k) && !prefix_has_conns(rs, i as int, k)
                    ==> self@.seen[k] == m0.seen[k],
                forall|j: int| 0 <= j < i && #[trigger] rs[j].connections is Some
                    ==> self@.seen[key_of(rs[j].snapshot@)] == remote_addrs(conns_of(rs[j])->0).to_set(),
                forall|p: Pid| #[trigger] new_current@.contains_key(p)
                    <==> exists|j: int| 0 <= j < i && #[trigger] rs[j].snapshot.pid == p,
                forall|j: int| 0 <= j < i ==> new_current@[#[trigger] rs[j].snapshot.pid]@ == observed(m0, rs[j].snapshot@, now),
                forall|p: Pid| #[trigger] new_current@.contains_key(p) ==> new_current@[p].pid == p,
                events_view(pending@) == readings_events(m0, rs, i as int, now),
            decreases rs.len() - i,
        {
            let ghost before = self@;
            let ghost sv = rs[i as int].snapshot@;
            let ghost k = key_of(sv);
            assert(!prefix_has_key(rs, i as int, k)) by {
                if prefix_has_key(rs, i as int, k) {
                    let j = choose|j: int| 0 <= j < i && key_of(#[trigger] rs[j].snapshot@) == k;
                    assert(rs[j].snapshot.pid != rs[i as int].snapshot.pid);
                }
            }
            assert(!prefix_has_conns(rs, i as int, k));
            let mut s = readings[i].snapshot.clone();
            assert(s@ == sv);
            let ghost prior = snapshots_of(rs).take(i as int);
            assert forall|p: Pid| #[trigger] new_current@.contains_key(p)
                <==> exists|j: int| 0 <= j < prior.len() && #[trigger] prior[j].pid == p by {
                if new_current@.contains_key(p) {
                    let j = choose|j: int| 0 <= j < i && #[trigger] rs[j].snapshot.pid == p;
                    assert(prior[j].pid == p);
                }
                if exists|j: int| 0 <= j < prior.len() && #[trigger] prior[j].pid == p {
                    let j = choose|j: int| 0 <= j < prior.len() && #[trigger] prior[j].pid == p;
                    assert(rs[j].snapshot.pid == p);
                }
            }
            let ghost ev0 = events_view(pending@);
            self.lifecycle(&s, &new_current, now, &mut pending, Ghost(prior));
            self.observe(&mut s, now, &mut pending);
            assert(s@ == observed(m0, sv, now));
            self.track_connections(&s, &readings[i].connections, now, &mut pending);
            proof {
                assert(growth_events(before, sv, now) == growth_events(m0, sv, now));
                assert(seen_before(before, k) == seen_before(m0, k));
                assert(connection_events(before, s@, conns_of(rs[i as int]), now)
                    == connection_events(m0, sv, conns_of(rs[i as int]), now));
                assert(lifecycle_events(before, prior, sv, now) == lifecycle_events(m0, prior, sv, now));
                assert(events_view(pending@) =~= readings_events(m0, rs, i + 1, now));
            }
            let ghost mid = self@;
            self.record(s.clone(), now);
            let pid = s.pid;
            new_current.insert(pid, s);
            proof {
                assert forall|kk: HistoryKey| #[trigger] self@.history.contains_key(kk)
                    <==> (m0.history.contains_key(kk) || prefix_has_key(rs, i + 1, kk)) by {
                    if prefix_has_key(rs, i + 1, kk) && kk != k {
                        let j = choose|j: int| 0 <= j < i + 1 && key_of(#[trigger] rs[j].snapshot@) == kk;
                        assert(prefix_has_key(rs, i as int, kk));
                    }
                    if kk == k {
                        assert(key_of(rs[i as int].snapshot@) == kk);
                    }
                    if prefix_has_key(rs, i as int, kk) {
                        let j = choose|j: int| 0 <= j < i && key_of(#[trigger] rs[j].snapshot@) == kk;
                        assert(0 <= j < i + 1 && key_of(rs[j].snapshot@) == kk);
                    }
                }
                assert forall|kk: HistoryKey| #[trigger] self@.history.contains_key(kk) && !prefix_has_key(rs, i + 1, kk)
                    implies self@.history[kk] == m0.history[kk] by {
                    if prefix_has_key(rs, i as int, kk) {
                        let j = choose|j: int| 0 <= j < i && key_of(#[trigger] rs[j].snapshot@) == kk;
                        assert(0 <= j < i + 1 && key_of(rs[j].snapshot@) == kk);
                    }
                    assert(kk != k) by {
                        if kk == k {
                            assert(key_of(rs[i as int].snapshot@) == kk);
                        }
                    }
                }
                assert forall|j: int| 0 <= j < i + 1 implies self@.history[key_of(#[trigger] rs[j].snapshot@)] == keep_last(
                    samples_or_empty(m0, key_of(rs[j].snapshot@)).push((now, observed(m0, rs[j].snapshot@, now))),
                    m.history_capacity,
                ) by {
                    if j < i {
                        assert(rs[j].snapshot.pid != rs[i as int].snapshot.pid);
                    } else {
                        assert(samples_or_empty(mid, k) == samples_or_empty(m0, k));
                    }
                }
                assert forall|kk: HistoryKey| #[trigger] self@.seen.contains_key(kk)
                    <==> (m0.seen.contains_key(kk) || prefix_has_conns(rs, i + 1, kk)) by {
                    if prefix_has_conns(rs, i + 1, kk) && !prefix_has_conns(rs, i as int, kk) {
                        let j = choose|j: int| 0 <= j < i + 1 && key_of(#[trigger] rs[j].snapshot@) == kk && rs[j].connections is Some;
                        assert(j == i);
                    }
                    if prefix_has_conns(rs, i as int, kk) {
                        let j = choose|j: int| 0 <= j < i && key_of(#[trigger] rs[j].snapshot@) == kk && rs[j].connections is Some;
                        assert(0 <= j < i + 1);
                    }
                    if kk == k && rs[i as int].connections is Some {
                        assert(key_of(rs[i as int].snapshot@) == kk);
                    }
                }
                assert forall|kk: HistoryKey| #[trigger] self@.seen.contains_key(kk) && !prefix_has_conns(rs, i + 1, kk)
                    implies self@.seen[kk] == m0.seen[kk] by {
                    if prefix_has_conns(rs, i as int, kk) {
                        let j = choose|j: int| 0 <= j < i && key_of(#[trigger] rs[j].snapshot@) == kk && rs[j].connections is Some;
                        assert(0 <= j < i + 1);
                    }
                    if kk == k && rs[i as int].connections is Some {
                        assert(key_of(rs[i as int].snapshot@) == kk);
                    }
                }
                assert forall|j: int| 0 <= j < i + 1 && #[trigger] rs[j].connections is Some
                    implies self@.seen[key_of(rs[j].snapshot@)] == remote_addrs(conns_of(rs[j])->0).to_set() by {
                    if j < i {
                        assert(rs[j].snapshot.pid != rs[i as int].snapshot.pid);
                    }
                }
                assert forall|p: Pid| #[trigger] new_current@.contains_key(p)
                    <==> exists|j: int| 0 <= j < i + 1 && #[trigger] rs[j].snapshot.pid == p by {
                    if exists|j: int| 0 <= j < i + 1 && #[trigger] rs[j].snapshot.pid == p {
                        let j = choose|j: int| 0 <= j < i + 1 && #[trigger] rs[j].snapshot.pid == p;
                        if j < i {
                            assert(exists|jj: int| 0 <= jj < i && #[trigger] rs[jj].snapshot.pid == p);
                        }
                    }
                    if p == pid {
                        assert(rs[i as int].snapshot.pid == p);
                    }
                    if p != pid && new_current@.contains_key(p) {
                        let j = choose|j: int| 0 <= j < i && #[trigger] rs[j].snapshot.pid == p;
                        assert(0 <= j < i + 1);
                    }
                }
                assert forall|j: int| 0 <= j < i + 1 implies new_current@[#[trigger] rs[j].snapshot.pid]@ == observed(m0, rs[j].snapshot@, now) by {
                    if j < i {
                        assert(rs[j].snapshot.pid != rs[i as int].snapshot.pid);
                    }
                }
            }
            i += 1;
        }
        let ghost after_loop = self@;
        let ghost newv = new_current@.map_values(|s: ProcessSnapshot| s@);
        let stale = self.exits(&new_current, now, &mut pending);
        let ghost ks = stale@;
        self.append_events(pending);
        self.current = new_current;
        self.stale_keys = stale;
        proof {
            let exited = live_keys(m.current).difference(reading_keys(rs));
            assert(live_keys(newv) =~= reading_keys(rs)) by {
                assert forall|kk: HistoryKey| #[trigger] live_keys(newv).contains(kk) <==> reading_keys(rs).contains(kk) by {
                    if live_keys(newv).contains(kk) {
                        let j = choose|j: int| 0 <= j < rs.len() && #[trigger] rs[j].snapshot.pid == kk.0;
                        assert(key_of(rs[j].snapshot@) == kk);
                    }
                    if reading_keys(rs).contains(kk) {
                        let j = choose|j: int| 0 <= j < rs.len() && key_of(#[trigger] rs[j].snapshot@) == kk;
                        assert(new_current@.contains_key(rs[j].snapshot.pid));
                    }
                }
            }
            assert(self@.stale =~= exited);
            assert forall|kk: HistoryKey| #[trigger] reading_keys(rs).contains(kk) <==> prefix_has_key(rs, rs.len() as int, kk) by {}
            assert forall|kk: HistoryKey| (exists|j: int| 0 <= j < rs.len() && key_of(#[trigger] rs[j].snapshot@) == kk && rs[j].connections is Some)
                <==> prefix_has_conns(rs, rs.len() as int, kk) by {}
            assert(self@.timeline == keep_last(m.timeline + readings_events(m0, rs, rs.len() as int, now) + exit_events(ks, now), m.timeline_capacity));
            assert(ks.no_duplicates() && ks.to_set() == exited);
            // well-formedness
            assert forall|kk: HistoryKey| #[trigger] self@.history.contains_key(kk)
                implies is_current_key(self@.current, kk) || self@.stale.contains(kk) by {
                if m0.history.contains_key(kk) {
                    assert(m.history.contains_key(kk) && !m.stale.contains(kk));
                    assert(is_current_key(m.current, kk));
                    assert(live_keys(m.current).contains(kk));
                    if !reading_keys(rs).contains(kk) {
                        assert(exited.contains(kk));
                    } else {
                        assert(live_keys(newv).contains(kk));
                    }
                } else {
                    assert(prefix_has_key(rs, rs.len() as int, kk));
                    assert(reading_keys(rs).contains(kk));
                    assert(live_keys(newv).contains(kk));
                }
            }
            assert forall|k1: HistoryKey, k2: HistoryKey| #[trigger] self@.stale.contains(k1) && #[trigger] self@.stale.contains(k2)
                && k1.0 == k2.0 implies k1 == k2 by {
                assert(is_current_key(m.current, k1) && is_current_key(m.current, k2));
            }
            assert forall|kk: HistoryKey| #[trigger] self@.stale.contains(kk) implies !is_current_key(self@.current, kk) by {
                assert(!live_keys(newv).contains(kk));
            }
            let m2 = self@;
            assert(self@.current == newv);
            assert(forall|p: Pid| #[trigger] m2.current.contains_key(p)
                <==> exists|i: int| 0 <= i < rs.len() && rs[i].snapshot.pid == p);
            assert(forall|i: int| 0 <= i < rs.len() ==> m2.current[#[trigger] rs[i].snapshot.pid] == observed(m0, rs[i].snapshot@, now));
            assert(forall|k: HistoryKey| #[trigger] m2.history.contains_key(k)
                <==> (m0.history.contains_key(k) || reading_keys(rs).contains(k)));
            assert(forall|k: HistoryKey| #[trigger] m2.history.contains_key(k) && !reading_keys(rs).contains(k)
                ==> m2.history[k] == m0.history[k]);
            assert(forall|i: int| 0 <= i < rs.len() ==> m2.history[key_of(#[trigger] rs[i].snapshot@)] == keep_last(
                (if m0.history.contains_key(key_of(rs[i].snapshot@)) { m0.history[key_of(rs[i].snapshot@)] } else { Seq::empty() })
                    .push((now, observed(m0, rs[i].snapshot@, now))),
                m.history_capacity,
            ));
            assert(i == rs.len());
            assert(m2.seen == after_loop.seen);
            lemma_seen_all_readings(m0.seen, m2.seen, rs);
            assert(forall|i: int| 0 <= i < rs.len() && #[trigger] rs[i].connections is Some
                ==> m2.seen[key_of(rs[i].snapshot@)] == remote_addrs(conns_of(rs[i])->0).to_set());
            assert(m2.stale == exited);
            assert(exists|ks: Seq<HistoryKey>| ks.no_duplicates() && #[trigger] ks.to_set() == exited
                && m2.timeline == keep_last(
                m.timeline + readings_events(m0, rs, rs.len() as int, now) + exit_events(ks, now),
                m.timeline_capacity,
            ));
            assert(refreshed(m, rs, now, m2));
            lemma_refresh_history_within_capacity(m, rs, now, m2);
        }
    }
}


/// What one pass over the process table got for one listed pid: its
/// snapshot, or `None` when the process could not be read (it exited
/// between being listed and being read), and its network connections
/// when they could be read.
pub struct ProcessRead {
    pub snapshot: Option<ProcessSnapshot>,
    pub connections: Option<Vec<NetworkConnection>>,
}

/// Whether some reading of `rs` is of `p`.
pub open spec fn has_reading_of(rs: Seq<ProcessReading>, p: Pid) -> bool {
    exists|i: int| 0 <= i < rs.len() && #[trigger] rs[i].snapshot.pid == p
}

/// The readings made from the first `n` reads: a read that failed is
/// skipped, and a pid read a second time keeps its first reading.
pub open spec fn readings_from(reads: Seq<ProcessRead>, n: int) -> Seq<ProcessReading>
    decreases n,
{
    if n <= 0 {
        Seq::empty()
    } else {
        let prev = readings_from(reads, n - 1);
        match reads[n - 1].snapshot {
            Some(s) => if has_reading_of(prev, s.pid) {
                prev
            } else {
                prev.push(ProcessReading { snapshot: s, connections: reads[n - 1].connections })
            },
            None => prev,
        }
    }
}

/// Whether some read of `reads` succeeded for `p`.
pub open spec fn was_read(reads: Seq<ProcessRead>, p: Pid) -> bool {
    exists|j: int| 0 <= j < reads.len() && #[trigger] reads[j].snapshot == Some(reads[j].snapshot->0)
        && reads[j].snapshot->0.pid == p
}

/// The readings of a pass: every successful read, in order, each pid once
/// (its first read), failed reads skipped.
pub fn usable_readings(reads: Vec<ProcessRead>) -> (r: Vec<ProcessReading>)
    ensures
        r@ == readings_from(reads@, reads@.len() as int),
        distinct_pids(r@),
        forall|p: Pid| #[trigger] has_reading_of(r@, p) <==> was_read(reads@, p),
{
    let ghost rs = reads@;
    let total = reads.len();
    let mut reads = reads;
    let mut pending: Vec<ProcessRead> = Vec::new();
    while reads.len() > 0
        invariant
            reads@ + pending@.reverse() == rs,
        decreases reads@.len(),
    {
        let ghost r0 = reads@;
        let ghost p0 = pending@;
        let read = reads.pop().unwrap();
        pending.push(read);
        proof {
            assert(pending@.reverse() =~= seq![read] + p0.reverse());
            assert(r0 =~= reads@.push(read));
            assert(reads@ + pending@.reverse() =~= rs);
        }
    }
    proof {
        assert(reads@ =~= Seq::<ProcessRead>::empty());
        assert(pending@.reverse() =~= rs);
    }
    let mut out: Vec<ProcessReading> = Vec::new();
    let mut pids: HashSet<Pid> = HashSet::new();
    let mut n: usize = 0;
    loop
        invariant
            n <= rs.len(),
            rs.len() == total,
            pending@.reverse() == rs.skip(n as int),
            out@ == readings_from(rs, n as int),
            distinct_pids(out@),
            forall|p: Pid| #[trigger] pids@.contains(p) <==> has_reading_of(out@, p),
            forall|p: Pid| has_reading_of(out@, p) <==> #[trigger] was_read(rs.take(n as int), p),
        ensures
            n == rs.len(),
            out@ == readings_from(rs, n as int),
            distinct_pids(out@),
            forall|p: Pid| has_reading_of(out@, p) <==> #[trigger] was_read(rs.take(n as int), p),
        decreases rs.len() - n,
    {
        let ghost before = pending@;
        match pending.pop() {
            Some(read) => {
                proof {
                    assert(before =~= pending@.push(read));
                    assert(before.reverse() =~= seq![read] + pending@.reverse());
                    assert(rs.skip(n as int).len() > 0);
                    assert(n < rs.len());
                    assert(rs.skip(n as int)[0] == read);
                    assert(rs[n as int] == read);
                    let sk = rs.skip(n as int);
                    assert(sk =~= seq![read] + pending@.reverse());
                    assert(rs.skip(n + 1) =~= sk.subrange(1, sk.len() as int));
                    assert(rs.skip(n + 1) =~= pending@.reverse());
                }
                let ghost prev = out@;
                let ghost rd = read;
                let ProcessRead { snapshot, connections } = read;
                match snapshot {
                    Some(s) => {
                        if !pids.contains(&s.pid) {
                            pids.insert(s.pid);
                            out.push(ProcessReading { snapshot: s, connections });
                            proof {
                                assert forall|p: Pid| #[trigger] pids@.contains(p) <==> has_reading_of(out@, p) by {
                                    if has_reading_of(out@, p) && p != s.pid {
                                        let i = choose|i: int| 0 <= i < out@.len() && #[trigger] out@[i].snapshot.pid == p;
                                        assert(prev[i].snapshot.pid == p);
                                    }
                                    if p == s.pid {
                                        assert(out@[prev.len() as int].snapshot.pid == p);
                                    }
                                    if p != s.pid && has_reading_of(prev, p) {
                                        let i = choose|i: int| 0 <= i < prev.len() && #[trigger] prev[i].snapshot.pid == p;
                                        assert(out@[i].snapshot.pid == p);
                                    }
                                }
                                assert forall|i: int, j: int| 0 <= i < out@.len() && 0 <= j < out@.len() && i != j
                                    implies #[trigger] out@[i].snapshot.pid != #[trigger] out@[j].snapshot.pid by {
                                    if i == prev.len() {
                                        assert(!has_reading_of(prev, s.pid));
                                        assert(prev[j].snapshot.pid == out@[j].snapshot.pid);
                                    } else if j == prev.len() {
                                        assert(!has_reading_of(prev, s.pid));
                                        assert(prev[i].snapshot.pid == out@[i].snapshot.pid);
                                    } else {
                                        assert(prev[i] == out@[i] && prev[j] == out@[j]);
                                    }
                                }
                            }
                        }
                    },
                    None => {},
                }
                proof {
                    let t0 = rs.take(n as int);
                    let t1 = rs.take(n + 1);
                    assert(t1 =~= t0.push(rs[n as int]));
                    assert(out@ == readings_from(rs, n + 1));
                    assert forall|p: Pid| has_reading_of(out@, p) <==> #[trigger] was_read(t1, p) by {
                        if was_read(t1, p) {
                            let j = choose|j: int| 0 <= j < t1.len() && #[trigger] t1[j].snapshot == Some(t1[j].snapshot->0)
                                && t1[j].snapshot->0.pid == p;
                            if has_reading_of(prev, p) {
                                let i = choose|i: int| 0 <= i < prev.len() && #[trigger] prev[i].snapshot.pid == p;
                                assert(out@[i] == prev[i]);
                            } else if j < n {
                                assert(t0[j] == t1[j]);
                                assert(was_read(t0, p));
                            } else {
                                assert(j == n);
                                assert(rd == rs[n as int]);
                                assert(out@[prev.len() as int].snapshot.pid == p);
                            }
                        }
                        if has_reading_of(out@, p) {
                            let i = choose|i: int| 0 <= i < out@.len() && #[trigger] out@[i].snapshot.pid == p;
                            if i < prev.len() {
                                assert(out@[i] == prev[i]);
                                assert(has_reading_of(prev, p));
                                assert(was_read(t0, p));
                                let j = choose|j: int| 0 <= j < t0.len() && #[trigger] t0[j].snapshot == Some(t0[j].snapshot->0)
                                    && t0[j].snapshot->0.pid == p;
                                assert(t1[j] == t0[j]);
                            } else {
                                assert(out@.len() == prev.len() + 1);
                                assert(rd.snapshot is Some);
                                assert(rd == rs[n as int]);
                                assert(t1[n as int] == rd);
                                assert(t1[n as int].snapshot == Some(t1[n as int].snapshot->0));
                            }
                        }
                    }
                }
                n += 1;
            },
            None => {
                proof {
                    assert(before.reverse().len() == 0);
                    assert(rs.skip(n as int).len() == 0);
                }
                break;
            },
        }
    }
    proof {
        assert(rs.take(n as int) =~= rs);
    }
    out
}

impl ProcessIntelligence {
    /// One refresh from what a pass over the process table got: `None`
    /// when the table itself could not be listed, in which case only the
    /// runs that went stale at the previous refresh are dropped; otherwise
    /// the usable readings of the pass are refreshed at `now`, and exactly
    /// the pids that could be read are current afterwards.
    pub fn refresh_reads(&mut self, now: i64, reads: Option<Vec<ProcessRead>>)
        requires
            old(self).wf(),
        ensures
            final(self).wf(),
            match reads {
                None => final(self)@ == drained(old(self)@),
                Some(rs) => {
                    &&& refreshed(old(self)@, readings_from(rs@, rs@.len() as int), now, final(self)@)
                    &&& forall|p: Pid| #[trigger] final(self)@.current.contains_key(p) <==> was_read(rs@, p)
                },
            },
    {
        match reads {
            None => {
                let ghost m = self@;
                self.drain_stale();
                proof {
                    let m2 = self@;
                    assert(m2.stale =~= Set::<HistoryKey>::empty());
                    assert forall|k: HistoryKey| #[trigger] m2.history.contains_key(k)
                        implies is_current_key(m2.current, k) || m2.stale.contains(k) by {
                        assert(m.history.contains_key(k) && !m.stale.contains(k));
                    }
                    assert forall|k: HistoryKey| #[trigger] m2.history.contains_key(k)
                        implies m2.history[k].len() <= m2.history_capacity by {
                        assert(m.history.contains_key(k));
                    }
                }
            },
            Some(rs) => {
                let ghost raw = rs@;
                let readings = usable_readings(rs);
                let ghost got = readings@;
                self.refresh_at(now, readings);
                proof {
                    assert forall|p: Pid| #[trigger] self@.current.contains_key(p) <==> was_read(raw, p) by {
                        assert(has_reading_of(got, p) <==> was_read(raw, p));
                        if self@.current.contains_key(p) {
                            let i = choose|i: int| 0 <= i < got.len() && got[i].snapshot.pid == p;
                            assert(has_reading_of(got, p));
                        }
                        if has_reading_of(got, p) {
                            let i = choose|i: int| 0 <= i < got.len() && #[trigger] got[i].snapshot.pid == p;
                            assert(exists|i: int| 0 <= i < got.len() && got[i].snapshot.pid == p);
                        }
                    }
                }
            },
        }
    }
}

/// The recorded samples of `pid`'s current run, oldest first. When `pid`
/// is not live, those of the run that went stale at the last refresh (at
/// most one run of a pid is stale at a time); empty when there are none.
pub open spec fn history_for(m: IntelModel, pid: Pid) -> Seq<(i64, SnapshotView)> {
    if m.current.contains_key(pid) {
        samples_or_empty(m, (pid, m.current[pid].start_time))
    } else if exists|st: u64| #[trigger] m.history.contains_key((pid, st)) {
        m.history[(pid, choose|st: u64| #[trigger] m.history.contains_key((pid, st)))]
    } else {
        Seq::empty()
    }
}

/// The timeline events about `pid`, oldest first.
pub open spec fn timeline_for(m: IntelModel, pid: Pid) -> Seq<EventView> {
    m.timeline.filter(|e: EventView| e.pid == pid)
}

fn clone_samples(h: &VecDeque<(i64, ProcessSnapshot)>) -> (r: Vec<(i64, ProcessSnapshot)>)
    ensures
        samples_view(r@) == samples_view(h@),
{
    let mut out: Vec<(i64, ProcessSnapshot)> = Vec::new();
    let mut i: usize = 0;
    while i < h.len()
        invariant
            i <= h@.len(),
            samples_view(out@) == samples_view(h@).take(i as int),
        decreases h@.len() - i,
    {
        let e = &h[i];
        let c = (e.0, e.1.clone());
        let ghost before = out@;
        assert(sample_view(c) == sample_view(h@[i as int]));
        out.push(c);
        assert(samples_view(out@) =~= samples_view(before).push(sample_view(c)));
        assert(samples_view(h@).take(i + 1) =~= samples_view(h@).take(i as int).push(samples_view(h@)[i as int]));
        assert(samples_view(out@) =~= samples_view(h@).take(i + 1));
        i += 1;
    }
    assert(samples_view(h@).take(h@.len() as int) =~= samples_view(h@));
    out
}

impl ProcessIntelligence {
    /// The most recent snapshot of `pid`, if it was live at the last
    /// refresh.
    pub fn process(&self, pid: Pid) -> (r: Option<&ProcessSnapshot>)
        ensures
            match r {
                Some(s) => self@.current.contains_key(pid) && s@ == self@.current[pid],
                None => !self@.current.contains_key(pid),
            },
    {
        self.current.get(&pid)
    }

    /// Every recorded sample of `pid`'s current run, oldest first (see
    /// `history_for`).
    pub fn history(&self, pid: Pid) -> (r: Vec<(i64, ProcessSnapshot)>)
        requires
            self.wf(),
        ensures
            samples_view(r@) == history_for(self@, pid),
            r@.len() <= DEFAULT_HISTORY_CAPACITY,
    {
        proof { history_and_timeline_stay_within_capacity(*self); }
        let ghost m = self@;
        let start = match self.current.get(&pid) {
            Some(s) => Some(s.start_time),
            None => {
                let mut found: Option<u64> = None;
                let mut j: usize = 0;
                while j < self.stale_keys.len()
                    invariant
                        j <= self.stale_keys@.len(),
                        found is None ==> forall|q: int| 0 <= q < j ==> #[trigger] self.stale_keys@[q].0 != pid,
                        found matches Some(st) ==> m.stale.contains((pid, st)),
                        m == self@,
                    decreases self.stale_keys@.len() - j,
                {
                    let k = self.stale_keys[j];
                    if k.0 == pid && found.is_none() {
                        assert(self.stale_keys@.to_set().contains(k));
                        found = Some(k.1);
                    }
                    j += 1;
                }
                proof {
                    if found is None {
                        assert forall|st: u64| !#[trigger] m.history.contains_key((pid, st)) by {
                            if m.history.contains_key((pid, st)) {
                                assert(!is_current_key(m.current, (pid, st)));
                                assert(m.stale.contains((pid, st)));
                                assert(self.stale_keys@.contains((pid, st)));
                                let q = choose|q: int| 0 <= q < self.stale_keys@.len() && self.stale_keys@[q] == (pid, st);
                                assert(self.stale_keys@[q].0 != pid);
                            }
                        }
                    }
                }
                found
            },
        };
        let samples = match start {
            Some(st) => match self.history.get(&pid) {
                Some(inner) => match inner.get(&st) {
                    Some(h) => Some(h),
                    None => None,
                },
                None => None,
            },
            None => None,
        };
        proof {
            match start {
                Some(st) => {
                    match samples {
                        Some(h) => {
                            assert(m.history.contains_key((pid, st)));
                            assert(m.history[(pid, st)] == samples_view(h@));
                        },
                        None => {
                            assert(!m.history.contains_key((pid, st)));
                        },
                    }
                },
                None => {},
            }
        }
        let out = match samples {
            Some(h) => clone_samples(h),
            None => Vec::new(),
        };
        proof {
            if m.current.contains_key(pid) {
                assert(start == Some(m.current[pid].start_time));
                assert(samples_view(out@) =~= history_for(m, pid));
            } else {
                match start {
                    Some(st) => {
                        if exists|st2: u64| #[trigger] m.history.contains_key((pid, st2)) {
                            let st2 = choose|st2: u64| #[trigger] m.history.contains_key((pid, st2));
                            assert(!is_current_key(m.current, (pid, st2)));
                            assert(m.stale.contains((pid, st2)));
                            assert(st2 == st);
                            assert(samples_view(out@) =~= history_for(m, pid));
                        } else {
                            assert(!m.history.contains_key((pid, st)));
                            assert(samples_view(out@) =~= history_for(m, pid));
                        }
                    },
                    None => {
                        assert(samples_view(out@) =~= history_for(m, pid));
                    },
                }
            }
        }
        out
    }

    /// Every recorded timeline event about `pid`, oldest first.
    pub fn timeline(&self, pid: Pid) -> (r: Vec<TimelineEvent>)
        ensures
            events_view(r@) == timeline_for(self@, pid),
    {
        let ghost pred = |e: EventView| e.pid == pid;
        let ghost tv = self@.timeline;
        let mut out: Vec<TimelineEvent> = Vec::new();
        let mut i: usize = 0;
        while i < self.timeline.len()
            invariant
                i <= self.timeline@.len(),
                tv == self@.timeline,
                tv == events_view(self.timeline@),
                pred == (|e: EventView| e.pid == pid),
                events_view(out@) == tv.take(i as int).filter(pred),
            decreases self.timeline@.len() - i,
        {
            let e = &self.timeline[i];
            assert(tv[i as int] == e@);
            assert(tv.take(i + 1) =~= tv.take(i as int).push(e@));
            proof { tv.take(i as int).lemma_filter_push(e@, pred); }
            if e.pid == pid {
                let c = e.clone();
                proof { lemma_events_push(out@, c); }
                out.push(c);
            }
            i += 1;
        }
        assert(tv.take(tv.len() as int) =~= tv);
        out
    }

    /// The timeline events recorded at `at`, oldest first: at a refresh's
    /// own time, the events that refresh produced and kept.
    pub fn events_at(&self, at: i64) -> (r: Vec<TimelineEvent>)
        ensures
            events_view(r@) == self@.timeline.filter(|e: EventView| e.at == at),
    {
        let ghost pred = |e: EventView| e.at == at;
        let ghost tv = self@.timeline;
        let mut out: Vec<TimelineEvent> = Vec::new();
        let mut i: usize = 0;
        while i < self.timeline.len()
            invariant
                i <= self.timeline@.len(),
                tv == self@.timeline,
                tv == events_view(self.timeline@),
                pred == (|e: EventView| e.at == at),
                events_view(out@) == tv.take(i as int).filter(pred),
            decreases self.timeline@.len() - i,
        {
            let e = &self.timeline[i];
            assert(tv[i as int] == e@);
            assert(tv.take(i + 1) =~= tv.take(i as int).push(e@));
            proof { tv.take(i as int).lemma_filter_push(e@, pred); }
            if e.at == at {
                let c = e.clone();
                proof { lemma_events_push(out@, c); }
                out.push(c);
            }
            i += 1;
        }
        assert(tv.take(tv.len() as int) =~= tv);
        out
    }

    /// The full process hierarchy as of the last refresh.
    pub fn tree(&self) -> (t: ProcessTree)
        requires
            self.wf(),
        ensures
            t.well_formed(),
            forall|p: Pid| #[trigger] t.nodes@.contains_key(p) <==> self@.current.contains_key(p),
            forall|p: Pid| #[trigger] t.nodes@.contains_key(p) ==> t.nodes@[p]@ == self@.current[p],
    {
        let ghost vals = vstd::std_specs::iter::IteratorSpec::remaining(&vstd::std_specs::hash::spec_values_iter(&self.current)).unref();
        let mut snaps: Vec<ProcessSnapshot> = Vec::new();
        for v in it: self.current.values()
            invariant
                it.seq().unref() == vals,
                snaps@.len() == it.index(),
                forall|q: int| 0 <= q < it.index() ==> #[trigger] snaps@[q]@ == vals[q]@,
        {
            assert(*v == vals[it.index()]);
            snaps.push(v.clone());
        }
        let t = ProcessTree::build(snaps);
        proof {
            assert(vals.to_set() == self.current@.values());
            assert forall|p: Pid| #[trigger] t.nodes@.contains_key(p) <==> self@.current.contains_key(p) by {
                if self.current@.contains_key(p) {
                    assert(self.current@.values().contains(self.current@[p]));
                    assert(vals.to_set().contains(self.current@[p]));
                    let q = choose|q: int| 0 <= q < vals.len() && vals[q] == self.current@[p];
                    assert(snaps@[q]@ == vals[q]@);
                    assert(snaps@[q].pid == p);
                }
                if t.nodes@.contains_key(p) {
                    let q = choose|q: int| 0 <= q < snaps@.len() && snaps@[q].pid == p;
                    assert(snaps@[q]@ == vals[q]@);
                    assert(vals.to_set().contains(vals[q]));
                    assert(self.current@.values().contains(vals[q]));
                    let k = choose|k: Pid| self.current@.contains_key(k) && self.current@[k] == vals[q];
                    assert(self.current@[k].pid == k);
                    assert(k == p);
                }
            }
            assert forall|p: Pid| #[trigger] t.nodes@.contains_key(p) implies t.nodes@[p]@ == self@.current[p] by {
                let q = choose|q: int| crate::tree::last_index_of(snaps@, p, q) && t.nodes@[p]@ == snaps@[q]@;
                assert(snaps@[q]@ == vals[q]@);
                assert(vals.to_set().contains(vals[q]));
                assert(self.current@.values().contains(vals[q]));
                let k = choose|k: Pid| self.current@.contains_key(k) && self.current@[k] == vals[q];
                assert(self.current@[k].pid == k);
                assert(k == p);
            }
        }
        t
    }

    /// Aggregated CPU, memory, thread and file usage across `pid` and every
    /// descendant, as of the last refresh; `None` when `pid` was not live.
    pub fn family_rollup(&self, pid: Pid) -> (r: Option<crate::tree::FamilyRollup>)
        requires
            self.wf(),
            self@.current.contains_key(pid) ==> family_fits(self@.current, pid),
        ensures
            !self@.current.contains_key(pid) ==> r is None,
            self@.current.contains_key(pid) ==> (r matches Some(rollup) && is_family_rollup(self@.current, pid, rollup)),
    {
        let t = self.tree();
        proof {
            assert(node_views(t.nodes@) =~= self@.current);
            crate::tree::lemma_family_set_is_lineage(t, pid);
        }
        t.aggregate(pid)
    }
}

} // verus!

verus! {

/// Every intelligence the library hands out, fresh or after any number of
/// refreshes, keeps each run's recorded samples within the history
/// capacity (120) and its timeline within the timeline capacity (1000).
pub proof fn history_and_timeline_stay_within_capacity(s: ProcessIntelligence)
    requires
        s.wf(),
    ensures
        forall|k: HistoryKey| #[trigger] s@.history.contains_key(k) ==> s@.history[k].len() <= DEFAULT_HISTORY_CAPACITY,
        forall|pid: Pid| #[trigger] history_for(s@, pid).len() <= DEFAULT_HISTORY_CAPACITY,
        s@.timeline.len() <= DEFAULT_TIMELINE_CAPACITY,
{
    assert forall|pid: Pid| #[trigger] history_for(s@, pid).len() <= DEFAULT_HISTORY_CAPACITY by {
        let m = s@;
        if m.current.contains_key(pid) {
            let k = (pid, m.current[pid].start_time);
            if m.history.contains_key(k) {
                assert(m.history[k].len() <= m.history_capacity);
            }
        } else if exists|st: u64| #[trigger] m.history.contains_key((pid, st)) {
            let st = choose|st: u64| #[trigger] m.history.contains_key((pid, st));
            assert(m.history[(pid, st)].len() <= m.history_capacity);
        }
    }
}

/// A refresh of a state whose runs are within the history capacity keeps
/// them within it.
proof fn lemma_refresh_history_within_capacity(m: IntelModel, rs: Seq<ProcessReading>, now: i64, m2: IntelModel)
    requires
        refreshed(m, rs, now, m2),
        forall|k: HistoryKey| #[trigger] m.history.contains_key(k) ==> m.history[k].len() <= m.history_capacity,
    ensures
        forall|k: HistoryKey| #[trigger] m2.history.contains_key(k) ==> m2.history[k].len() <= m2.history_capacity,
{
    let m0 = drained(m);
    assert forall|k: HistoryKey| #[trigger] m2.history.contains_key(k) implies m2.history[k].len() <= m2.history_capacity by {
        if reading_keys(rs).contains(k) {
            let i = choose|i: int| 0 <= i < rs.len() && key_of(#[trigger] rs[i].snapshot@) == k;
            assert(m2.history[key_of(rs[i].snapshot@)] == keep_last(
                (if m0.history.contains_key(key_of(rs[i].snapshot@)) { m0.history[key_of(rs[i].snapshot@)] } else { Seq::empty() })
                    .push((now, observed(m0, rs[i].snapshot@, now))),
                m.history_capacity,
            ));
            if m0.history.contains_key(k) {
                assert(m.history.contains_key(k));
            }
        } else {
            assert(m2.history[k] == m0.history[k]);
            assert(m.history.contains_key(k));
        }
    }
}

/// The timeline never holds more events than its capacity.
pub proof fn refresh_keeps_timeline_within_capacity(m: IntelModel, rs: Seq<ProcessReading>, now: i64, m2: IntelModel)
    requires
        refreshed(m, rs, now, m2),
    ensures
        m2.timeline.len() <= m2.timeline_capacity,
{
}

/// A run that is live at one refresh and missing from the next keeps its
/// recorded samples through that refresh (an investigation right after
/// the exit still sees them), and loses them at the refresh after, unless
/// it is read again.
pub proof fn exited_run_keeps_history_for_one_refresh(
    before: ProcessIntelligence,
    rs: Seq<ProcessReading>,
    now: i64,
    after: ProcessIntelligence,
    rs2: Seq<ProcessReading>,
    now2: i64,
    later: ProcessIntelligence,
    k: HistoryKey,
)
    requires
        before.wf(),
        refreshed(before@, rs, now, after@),
        refreshed(after@, rs2, now2, later@),
        is_current_key(before@.current, k),
        before@.history.contains_key(k),
        !reading_keys(rs).contains(k),
        !reading_keys(rs2).contains(k),
    ensures
        after@.history.contains_key(k),
        after@.history[k] == before@.history[k],
        after@.stale.contains(k),
        !later@.history.contains_key(k),
{
    assert(!before@.stale.contains(k));
    assert(live_keys(before@.current).contains(k));
}

/// A refresh that reads the same connections of the same run again
/// reports none of their addresses as new.
pub proof fn known_connections_are_not_reported_again(
    before: ProcessIntelligence,
    rs: Seq<ProcessReading>,
    now: i64,
    after: IntelModel,
    i: int,
    now2: i64,
)
    requires
        before.wf(),
        refreshed(before@, rs, now, after),
        0 <= i < rs.len(),
        rs[i].connections is Some,
    ensures
        connection_events(drained(after), rs[i].snapshot@, conns_of(rs[i]), now2).len() == 0,
{
    let k = key_of(rs[i].snapshot@);
    let cs = conns_of(rs[i])->0;
    let addrs = remote_addrs(cs);
    assert(reading_keys(rs).contains(k));
    assert(!after.stale.contains(k));
    assert(after.seen[k] == addrs.to_set());
    let seen = seen_before(drained(after), k);
    assert(seen == addrs.to_set());
    let pred = |a: Seq<char>| !seen.contains(a);
    let f = addrs.filter(pred);
    if f.len() > 0 {
        assert(f.contains(f[0]));
        addrs.lemma_filter_contains_rev(pred, f[0]);
        addrs.lemma_filter_pred(pred, 0);
        assert(addrs.to_set().contains(f[0]));
    }
    assert(connection_events(drained(after), rs[i].snapshot@, conns_of(rs[i]), now2)
        == f.map_values(|a: Seq<char>| connection_event(rs[i].snapshot@, a, now2)));
}

/// A reading whose start time differs from the live run of its pid (the
/// kernel reused the pid) is a new run: it is reported as started, and its
/// history starts afresh with just this reading.
pub proof fn reused_pid_starts_a_new_run(
    before: ProcessIntelligence,
    rs: Seq<ProcessReading>,
    now: i64,
    after: IntelModel,
    i: int,
    prior: Seq<SnapshotView>,
)
    requires
        before.wf(),
        refreshed(before@, rs, now, after),
        0 <= i < rs.len(),
        before@.current.contains_key(rs[i].snapshot.pid),
        before@.current[rs[i].snapshot.pid].start_time != rs[i].snapshot.start_time,
    ensures
        lifecycle_events(drained(before@), prior, rs[i].snapshot@, now)[0] == started_event(rs[i].snapshot@, now),
        after.history[key_of(rs[i].snapshot@)] == seq![(now, rs[i].snapshot@)],
{
    let m = before@;
    let m0 = drained(m);
    let s = rs[i].snapshot@;
    let k = key_of(s);
    assert(!is_current_key(m.current, k));
    assert(!m0.history.contains_key(k)) by {
        if m.history.contains_key(k) {
            assert(m.stale.contains(k));
        }
    }
    assert(observed(m0, s, now) == s);
    assert(after.history[key_of(rs[i].snapshot@)] == keep_last(
        (if m0.history.contains_key(key_of(rs[i].snapshot@)) { m0.history[key_of(rs[i].snapshot@)] } else { Seq::empty() })
            .push((now, observed(m0, rs[i].snapshot@, now))),
        m.history_capacity,
    ));
    assert(Seq::<(i64, SnapshotView)>::empty().push((now, s)) =~= seq![(now, s)]);
}


/// Sample `b` of `h` is the latest one taken at least the growth window
/// before `now`: it is that old, and no later sample is.
pub open spec fn latest_window_old(h: Seq<(i64, SnapshotView)>, now: i64, b: int) -> bool {
    &&& 0 <= b < h.len()
    &&& now - h[b].0 >= DEFAULT_GROWTH_WINDOW_SECS
    &&& forall|j: int| b < j < h.len() ==> now - #[trigger] h[j].0 < DEFAULT_GROWTH_WINDOW_SECS
}

/// The growth baseline of a run's samples is the latest of them taken at
/// least the growth window before `now`; there is none exactly when every
/// sample is younger than the window.
pub proof fn growth_baseline_is_the_latest_sample_a_window_old(samples: Seq<(i64, SnapshotView)>, now: i64)
    ensures
        baseline_index(samples, now) == -1
            <==> forall|j: int| 0 <= j < samples.len() ==> now - #[trigger] samples[j].0 < DEFAULT_GROWTH_WINDOW_SECS,
        baseline_index(samples, now) != -1 ==> latest_window_old(samples, now, baseline_index(samples, now)),
    decreases samples.len(),
{
    if samples.len() > 0 {
        let d = samples.drop_last();
        growth_baseline_is_the_latest_sample_a_window_old(d, now);
        assert forall|j: int| 0 <= j < d.len() implies #[trigger] d[j] == samples[j] by {}
        if now - samples.last().0 < DEFAULT_GROWTH_WINDOW_SECS {
            if baseline_index(d, now) == -1 {
                assert forall|j: int| 0 <= j < samples.len() implies now - #[trigger] samples[j].0 < DEFAULT_GROWTH_WINDOW_SECS by {
                    if j < d.len() {
                        assert(d[j] == samples[j]);
                    }
                }
            } else {
                let b = baseline_index(d, now);
                assert(d[b] == samples[b]);
                assert forall|j: int| b < j < samples.len() implies now - #[trigger] samples[j].0 < DEFAULT_GROWTH_WINDOW_SECS by {
                    if j < d.len() {
                        assert(d[j] == samples[j]);
                    }
                }
            }
        }
    }
}

/// A refresh reports memory growth for a reading by comparing its RSS
/// with the latest earlier sample of its run taken at least the growth
/// window before `now`: one event when RSS grew from that sample by at
/// least the threshold percentage, none otherwise, and none when no
/// sample of the run is that old.
pub proof fn growth_is_measured_from_the_latest_sample_a_window_old(m0: IntelModel, s: SnapshotView, now: i64, b: int)
    ensures
        m0.history.contains_key(key_of(s)) && latest_window_old(m0.history[key_of(s)], now, b) ==> {
            let base = m0.history[key_of(s)][b].1.memory.rss as int;
            growth_events(m0, s, now) == if base > 0
                && (s.memory.rss - base) * 100 >= DEFAULT_GROWTH_THRESHOLD_PERCENT * base {
                seq![growth_event(s, base, now)]
            } else {
                Seq::empty()
            }
        },
        !m0.history.contains_key(key_of(s)) || (forall|j: int| 0 <= j < m0.history[key_of(s)].len()
            ==> now - #[trigger] m0.history[key_of(s)][j].0 < DEFAULT_GROWTH_WINDOW_SECS)
            ==> growth_events(m0, s, now).len() == 0,
{
    if m0.history.contains_key(key_of(s)) {
        let h = m0.history[key_of(s)];
        growth_baseline_is_the_latest_sample_a_window_old(h, now);
        let c = baseline_index(h, now);
        if latest_window_old(h, now, b) {
            assert(c != -1);
            if c < b {
                assert(now - h[b].0 < DEFAULT_GROWTH_WINDOW_SECS);
            }
            if b < c {
                assert(now - h[c].0 < DEFAULT_GROWTH_WINDOW_SECS);
            }
            assert(c == b);
        }
    }
}

} // verus!
