//! The rule-based "why" investigation engine. Every `Finding` comes from a
//! fixed rule applied to what `ProcessIntelligence` holds (plus, for the
//! live aspects, a fresh reading the caller made), and carries the
//! `Evidence` that justifies it.
//!
//! The live readings (threads, connections, disk counters, the kernel log)
//! and the collection time are inputs: the caller owns the telemetry
//! source and the clock.

use vstd::prelude::*;

use crate::evidence::{
    evidence_views, Confidence, Evidence, EvidenceView, Finding, FindingView, Severity,
};
use crate::intelligence::{
    events_view, growth_crosses, history_for, samples_view, strings_view, timeline_for, IntelModel,
    ProcessIntelligence, DEFAULT_GROWTH_THRESHOLD_PERCENT, DEFAULT_GROWTH_WINDOW_SECS,
};
use crate::io::DiskIoStats;
use crate::memory::MemoryBreakdown;
use crate::network::{ConnectionState, NetworkConnection};
use crate::text::{
    centi_percent_text, decimal, has_substring, push_centi_percent, push_decimal, push_ratio,
    push_signed, ratio_text, signed_decimal, str_contains,
};
use crate::thread::ThreadSnapshot;
use crate::timeline::{EventView, TimelineEvent, TimelineEventKind};
use crate::Pid;

verus! {

/// The share of a process's accumulated CPU ticks, in percent, at which a
/// single thread counts as dominating it.
pub const DOMINANCE_THRESHOLD_PERCENT: u64 = 80;

// ---------------------------------------------------------------------
// Text of the findings
// ---------------------------------------------------------------------

/// `"<name> (pid <pid>)"`.
pub open spec fn who(name: Seq<char>, pid: Pid) -> Seq<char> {
    name + " (pid "@ + signed_decimal(pid as int) + ")"@
}

fn push_who(out: &mut String, name: &String, pid: Pid)
    ensures
        final(out)@ == old(out)@ + who(name@, pid),
{
    out.append(name.as_str());
    out.append(" (pid ");
    push_signed(out, pid as i64);
    out.append(")");
    assert(final(out)@ =~= old(out)@ + who(name@, pid));
}

/// The finding for a pid that is not among the live processes.
pub open spec fn not_found_view(pid: Pid) -> FindingView {
    FindingView {
        severity: Severity::Info,
        title: "Process not found"@,
        narrative: "pid "@ + signed_decimal(pid as int) + " is not in the currently tracked process set"@,
        confidence: Confidence::Unknown,
        evidence: Seq::empty(),
    }
}

/// The finding for a pid that is not in the currently tracked process set.
pub fn not_found(pid: Pid) -> (f: Finding)
    ensures
        f@ == not_found_view(pid),
        f.is_supported(),
{
    let mut narrative = String::from_str("pid ");
    push_signed(&mut narrative, pid as i64);
    narrative.append(" is not in the currently tracked process set");
    let f = Finding::new(
        Severity::Info,
        "Process not found",
        narrative.as_str(),
        Confidence::Unknown,
        Vec::new(),
    );
    assert(f@.evidence =~= Seq::<EvidenceView>::empty());
    f
}

/// A finding built from its parts, evidence given by value.
pub open spec fn finding(
    severity: Severity,
    title: Seq<char>,
    narrative: Seq<char>,
    confidence: Confidence,
    evidence: Seq<EvidenceView>,
) -> FindingView {
    FindingView { severity, title, narrative, confidence, evidence }
}

/// Builds a finding whose confidence the evidence supports.
fn make_finding(
    severity: Severity,
    title: &str,
    narrative: String,
    confidence: Confidence,
    evidence: Vec<Evidence>,
) -> (f: Finding)
    requires
        confidence == Confidence::Unknown || evidence@.len() > 0,
    ensures
        f@ == finding(severity, title@, narrative@, confidence, evidence_views(evidence@)),
        f.is_supported(),
{
    Finding::new(severity, title, narrative.as_str(), confidence, evidence)
}

proof fn lemma_views_one(e: Evidence)
    ensures
        evidence_views(seq![e]) == seq![e@],
{
    assert(evidence_views(seq![e]) =~= seq![e@]);
}

proof fn lemma_views_two(e0: Evidence, e1: Evidence)
    ensures
        evidence_views(seq![e0, e1]) == seq![e0@, e1@],
{
    assert(evidence_views(seq![e0, e1]) =~= seq![e0@, e1@]);
}

proof fn lemma_views_three(e0: Evidence, e1: Evidence, e2: Evidence)
    ensures
        evidence_views(seq![e0, e1, e2]) == seq![e0@, e1@, e2@],
{
    assert(evidence_views(seq![e0, e1, e2]) =~= seq![e0@, e1@, e2@]);
}

// ---------------------------------------------------------------------
// CPU
// ---------------------------------------------------------------------

/// The ticks (user + system) a thread has accumulated.
pub open spec fn thread_ticks(t: ThreadSnapshot) -> int {
    t.cpu.spec_total_ticks()
}

/// The ticks accumulated by all of `ts`.
pub open spec fn ticks_sum(ts: Seq<ThreadSnapshot>) -> int
    decreases ts.len(),
{
    if ts.len() == 0 {
        0
    } else {
        ticks_sum(ts.drop_last()) + thread_ticks(ts.last())
    }
}

/// The index of the busiest thread of a non-empty list: the first of
/// those with the most ticks.
pub open spec fn busiest(ts: Seq<ThreadSnapshot>) -> int
    decreases ts.len(),
{
    if ts.len() <= 1 {
        0
    } else {
        let b = busiest(ts.drop_last());
        if thread_ticks(ts.last()) > thread_ticks(ts[b]) { ts.len() - 1 } else { b }
    }
}


proof fn lemma_ticks_sum_step(ts: Seq<ThreadSnapshot>, i: int)
    requires
        0 <= i < ts.len(),
    ensures
        ticks_sum(ts.take(i + 1)) == ticks_sum(ts.take(i)) + thread_ticks(ts[i]),
{
    assert(ts.take(i + 1).drop_last() =~= ts.take(i));
}

proof fn lemma_ticks_sum_prefix(ts: Seq<ThreadSnapshot>, i: int)
    requires
        0 <= i <= ts.len(),
    ensures
        ticks_sum(ts.take(i)) + (if i < ts.len() { thread_ticks(ts[i]) } else { 0 }) <= ticks_sum(ts),
    decreases ts.len() - i,
{
    if i < ts.len() {
        lemma_ticks_sum_step(ts, i);
        lemma_ticks_sum_prefix(ts, i + 1);
        if i + 1 < ts.len() {
            assert(thread_ticks(ts[i + 1]) >= 0);
        }
    } else {
        assert(ts.take(i) =~= ts);
    }
}

/// The evidence of the process-level CPU reading.
pub open spec fn cpu_evidence(pid: Pid, now: i64, centi: u64) -> EvidenceView {
    EvidenceView {
        source: "process "@ + signed_decimal(pid as int) + " snapshot"@,
        collected_at: now,
        description: "process-level CPU utilization"@,
        raw: centi_percent_text(centi as nat) + "%"@,
    }
}

/// The evidence naming the busiest thread and its share of the ticks.
pub open spec fn thread_evidence(pid: Pid, now: i64, top: ThreadSnapshot, total: int) -> EvidenceView {
    EvidenceView {
        source: "threads of process "@ + signed_decimal(pid as int),
        collected_at: now,
        description: "top thread '"@ + top.name@ + "' (tid "@ + signed_decimal(top.tid as int) + ")"@,
        raw: decimal(thread_ticks(top) as nat) + " / "@ + decimal(total as nat) + " total ticks ("@
            + ratio_text(thread_ticks(top) * 100, total) + "%)"@,
    }
}

/// What `why_cpu` finds: the process-level utilization and, when the
/// threads' ticks are known, whether one thread holds at least
/// `DOMINANCE_THRESHOLD_PERCENT` of them.
pub open spec fn why_cpu_view(intel: IntelModel, pid: Pid, threads: Seq<ThreadSnapshot>, now: i64) -> FindingView {
    if !intel.current.contains_key(pid) {
        not_found_view(pid)
    } else {
        let p = intel.current[pid];
        let centi = p.cpu.percent_centi;
        let ev0 = cpu_evidence(pid, now, centi);
        let total = ticks_sum(threads);
        if threads.len() == 0 || total == 0 {
            finding(
                Severity::Info,
                "CPU usage"@,
                who(p.name@, pid) + " is at "@ + centi_percent_text(centi as nat)
                    + "% CPU; no per-thread breakdown available"@,
                Confidence::Observed,
                seq![ev0],
            )
        } else {
            let top = threads[busiest(threads)];
            let evs = seq![ev0, thread_evidence(pid, now, top, total)];
            if threads.len() > 1 && thread_ticks(top) * 100 >= DOMINANCE_THRESHOLD_PERCENT * total {
                finding(
                    Severity::Notice,
                    "Single-thread CPU dominance"@,
                    "thread '"@ + top.name@ + "' (tid "@ + signed_decimal(top.tid as int) + ") accounts for "@
                        + ratio_text(thread_ticks(top) * 100, total) + "% of "@ + p.name@
                        + "'s accumulated CPU ticks across "@ + decimal(threads.len()) + " threads"@,
                    Confidence::Correlated,
                    evs,
                )
            } else {
                finding(
                    Severity::Info,
                    "CPU usage spread across threads"@,
                    who(p.name@, pid) + " is at "@ + centi_percent_text(centi as nat) + "% CPU, spread across "@
                        + decimal(threads.len()) + " threads with no single dominant thread"@,
                    Confidence::Observed,
                    evs,
                )
            }
        }
    }
}

fn cpu_evidence_of(pid: Pid, now: i64, centi: u64) -> (e: Evidence)
    ensures
        e@ == cpu_evidence(pid, now, centi),
{
    let mut source = String::from_str("process ");
    push_signed(&mut source, pid as i64);
    source.append(" snapshot");
    let mut raw = String::new();
    push_centi_percent(&mut raw, centi);
    raw.append("%");
    let e = Evidence {
        source,
        collected_at: now,
        description: String::from_str("process-level CPU utilization"),
        raw,
    };
    assert(e@.raw =~= cpu_evidence(pid, now, centi).raw);
    e
}

fn thread_evidence_of(pid: Pid, now: i64, top: &ThreadSnapshot, top_ticks: u64, total: u64) -> (e: Evidence)
    requires
        top_ticks == thread_ticks(*top),
        total > 0,
    ensures
        e@ == thread_evidence(pid, now, *top, total as int),
{
    let mut source = String::from_str("threads of process ");
    push_signed(&mut source, pid as i64);
    let mut description = String::from_str("top thread '");
    description.append(top.name.as_str());
    description.append("' (tid ");
    push_signed(&mut description, top.tid as i64);
    description.append(")");
    let mut raw = String::new();
    push_decimal(&mut raw, top_ticks as u128);
    raw.append(" / ");
    push_decimal(&mut raw, total as u128);
    raw.append(" total ticks (");
    push_ratio(&mut raw, top_ticks as i128 * 100, total as i128);
    raw.append("%)");
    let e = Evidence { source, collected_at: now, description, raw };
    assert(e@.source =~= thread_evidence(pid, now, *top, total as int).source);
    assert(e@.description =~= thread_evidence(pid, now, *top, total as int).description);
    assert(e@.raw =~= thread_evidence(pid, now, *top, total as int).raw);
    e
}

/// Process-level CPU utilization and whether one thread dominates. The
/// threads' share is a ratio of their accumulated ticks in one reading
/// (`threads`, read by the caller; empty when it could not be read), not
/// a rate, so a dominance finding is only `Correlated`. `now` is when the
/// evidence was collected.
pub fn why_cpu(intel: &ProcessIntelligence, pid: Pid, threads: &Vec<ThreadSnapshot>, now: i64) -> (f: Finding)
    requires
        ticks_sum(threads@) <= u64::MAX,
    ensures
        f@ == why_cpu_view(intel@, pid, threads@, now),
        f.is_supported(),
{
    let process = match intel.process(pid) {
        Some(p) => p,
        None => {
            return not_found(pid);
        },
    };
    let ghost ts = threads@;
    let mut total: u64 = 0;
    let mut top: usize = 0;
    let mut top_ticks: u64 = 0;
    let mut i: usize = 0;
    while i < threads.len()
        invariant
            ts == threads@,
            i <= ts.len(),
            ticks_sum(ts) <= u64::MAX,
            total == ticks_sum(ts.take(i as int)),
            i > 0 ==> top < i && top == busiest(ts.take(i as int)),
            i > 0 ==> top_ticks == thread_ticks(ts[top as int]),
        decreases ts.len() - i,
    {
        proof {
            lemma_ticks_sum_step(ts, i as int);
            lemma_ticks_sum_prefix(ts, i as int);
            let t1 = ts.take(i + 1);
            assert(t1.drop_last() =~= ts.take(i as int));
            assert(t1.last() == ts[i as int]);
            if i > 0 {
                assert(t1[top as int] == ts[top as int]);
            }
        }
        let t = threads[i].cpu.utime_ticks + threads[i].cpu.stime_ticks;
        if i == 0 || t > top_ticks {
            top = i;
            top_ticks = t;
        }
        total = total + t;
        i += 1;
    }
    assert(ts.take(ts.len() as int) =~= ts);
    let ghost m = intel@;
    let ghost p = m.current[pid];
    assert(process@ == p);
    let centi = process.cpu.percent_centi;
    let ev0 = cpu_evidence_of(pid, now, centi);
    if threads.len() == 0 || total == 0 {
        let mut n = String::new();
        push_who(&mut n, &process.name, pid);
        n.append(" is at ");
        push_centi_percent(&mut n, centi);
        n.append("% CPU; no per-thread breakdown available");
        let mut evidence: Vec<Evidence> = Vec::new();
        evidence.push(ev0);
        proof {
            assert(evidence@ =~= seq![ev0]);
            lemma_views_one(ev0);
        }
        let f = make_finding(Severity::Info, "CPU usage", n, Confidence::Observed, evidence);
        assert(f@.narrative =~= why_cpu_view(m, pid, ts, now).narrative);
        return f;
    }
    let top_thread = &threads[top];
    let ev1 = thread_evidence_of(pid, now, top_thread, top_ticks, total);
    let mut evidence: Vec<Evidence> = Vec::new();
    evidence.push(ev0);
    evidence.push(ev1);
    proof {
        assert(evidence@ =~= seq![ev0, ev1]);
        lemma_views_two(ev0, ev1);
    }
    let n_threads = threads.len();
    if n_threads > 1 && top_ticks as u128 * 100 >= DOMINANCE_THRESHOLD_PERCENT as u128 * total as u128 {
        let mut n = String::from_str("thread '");
        n.append(top_thread.name.as_str());
        n.append("' (tid ");
        push_signed(&mut n, top_thread.tid as i64);
        n.append(") accounts for ");
        push_ratio(&mut n, top_ticks as i128 * 100, total as i128);
        n.append("% of ");
        n.append(process.name.as_str());
        n.append("'s accumulated CPU ticks across ");
        push_decimal(&mut n, n_threads as u128);
        n.append(" threads");
        let f = make_finding(Severity::Notice, "Single-thread CPU dominance", n, Confidence::Correlated, evidence);
        assert(f@.narrative =~= why_cpu_view(m, pid, ts, now).narrative);
        f
    } else {
        let mut n = String::new();
        push_who(&mut n, &process.name, pid);
        n.append(" is at ");
        push_centi_percent(&mut n, centi);
        n.append("% CPU, spread across ");
        push_decimal(&mut n, n_threads as u128);
        n.append(" threads with no single dominant thread");
        let f = make_finding(Severity::Info, "CPU usage spread across threads", n, Confidence::Observed, evidence);
        assert(f@.narrative =~= why_cpu_view(m, pid, ts, now).narrative);
        f
    }
}

// ---------------------------------------------------------------------
// Memory
// ---------------------------------------------------------------------

/// The evidence of the memory breakdown.
pub open spec fn memory_evidence(pid: Pid, now: i64, mem: MemoryBreakdown) -> EvidenceView {
    EvidenceView {
        source: "process "@ + signed_decimal(pid as int) + " snapshot"@,
        collected_at: now,
        description: "memory breakdown"@,
        raw: "rss="@ + decimal(mem.rss as nat) + " anon="@ + decimal(mem.anonymous as nat) + " file="@
            + decimal(mem.file_backed as nat) + " shared="@ + decimal(mem.shared as nat) + " private="@
            + decimal(mem.private as nat) + " swap="@ + decimal(mem.swap as nat) + " (bytes)"@,
    }
}

/// The evidence of the RSS at the start of the observed window.
pub open spec fn baseline_evidence(pid: Pid, latest_at: i64, window: int, base: u64) -> EvidenceView {
    EvidenceView {
        source: "history of process "@ + signed_decimal(pid as int),
        collected_at: latest_at,
        description: "RSS at start of the observed window ("@ + signed_decimal(window) + "s ago)"@,
        raw: decimal(base as nat) + " bytes"@,
    }
}

/// The span of `pid`'s recorded samples (latest minus oldest) fits an
/// `i64`.
pub open spec fn window_fits(intel: IntelModel, pid: Pid) -> bool {
    let h = history_for(intel, pid);
    h.len() >= 2 ==> i64::MIN <= h.last().0 - h[0].0 <= i64::MAX
}

/// What `why_memory` finds: the memory breakdown and, once at least two
/// samples are recorded, the RSS growth from the oldest sample. Growth of
/// at least `DEFAULT_GROWTH_THRESHOLD_PERCENT` over a window of at least
/// `DEFAULT_GROWTH_WINDOW_SECS` is flagged as `Likely` sustained growth.
pub open spec fn why_memory_view(intel: IntelModel, pid: Pid, now: i64) -> FindingView {
    if !intel.current.contains_key(pid) {
        not_found_view(pid)
    } else {
        let p = intel.current[pid];
        let rss = p.memory.rss;
        let h = history_for(intel, pid);
        let ev0 = memory_evidence(pid, now, p.memory);
        if h.len() < 2 {
            finding(
                Severity::Info,
                "Memory usage"@,
                who(p.name@, pid) + " is using "@ + decimal(rss as nat) + " bytes RSS; no history yet to assess growth"@,
                Confidence::Observed,
                seq![ev0],
            )
        } else {
            let base = h[0].1.memory.rss;
            if base == 0 {
                finding(
                    Severity::Info,
                    "Memory usage"@,
                    who(p.name@, pid) + " is using "@ + decimal(rss as nat) + " bytes RSS"@,
                    Confidence::Observed,
                    seq![ev0],
                )
            } else {
                let latest_at = h.last().0;
                let window = latest_at - h[0].0;
                let growth = ratio_text((rss - base) * 100, base as int);
                let evs = seq![ev0, baseline_evidence(pid, latest_at, window, base)];
                if window >= DEFAULT_GROWTH_WINDOW_SECS && growth_crosses(base as int, rss as int) {
                    finding(
                        Severity::Warning,
                        "Sustained memory growth"@,
                        who(p.name@, pid) + "'s RSS grew "@ + growth + "% over the last "@ + signed_decimal(window / 60)
                            + "m — worth checking for a leak"@,
                        Confidence::Likely,
                        evs,
                    )
                } else {
                    finding(
                        Severity::Info,
                        "Memory usage"@,
                        who(p.name@, pid) + "'s RSS changed "@ + growth + "% over the last "@ + signed_decimal(window)
                            + "s (below the "@ + decimal(DEFAULT_GROWTH_THRESHOLD_PERCENT as nat) + "%/"@
                            + decimal((DEFAULT_GROWTH_WINDOW_SECS / 60) as nat)
                            + "m threshold, or too little history yet)"@,
                        Confidence::Correlated,
                        evs,
                    )
                }
            }
        }
    }
}

fn memory_evidence_of(pid: Pid, now: i64, mem: &MemoryBreakdown) -> (e: Evidence)
    ensures
        e@ == memory_evidence(pid, now, *mem),
{
    let mut source = String::from_str("process ");
    push_signed(&mut source, pid as i64);
    source.append(" snapshot");
    let mut raw = String::from_str("rss=");
    push_decimal(&mut raw, mem.rss as u128);
    raw.append(" anon=");
    push_decimal(&mut raw, mem.anonymous as u128);
    raw.append(" file=");
    push_decimal(&mut raw, mem.file_backed as u128);
    raw.append(" shared=");
    push_decimal(&mut raw, mem.shared as u128);
    raw.append(" private=");
    push_decimal(&mut raw, mem.private as u128);
    raw.append(" swap=");
    push_decimal(&mut raw, mem.swap as u128);
    raw.append(" (bytes)");
    let e = Evidence {
        source,
        collected_at: now,
        description: String::from_str("memory breakdown"),
        raw,
    };
    assert(e@.source =~= memory_evidence(pid, now, *mem).source);
    assert(e@.raw =~= memory_evidence(pid, now, *mem).raw);
    e
}

fn baseline_evidence_of(pid: Pid, latest_at: i64, window: i64, base: u64) -> (e: Evidence)
    ensures
        e@ == baseline_evidence(pid, latest_at, window as int, base),
{
    let mut source = String::from_str("history of process ");
    push_signed(&mut source, pid as i64);
    let mut description = String::from_str("RSS at start of the observed window (");
    push_signed(&mut description, window);
    description.append("s ago)");
    let mut raw = String::new();
    push_decimal(&mut raw, base as u128);
    raw.append(" bytes");
    let e = Evidence { source, collected_at: latest_at, description, raw };
    assert(e@.description =~= baseline_evidence(pid, latest_at, window as int, base).description);
    assert(e@.raw =~= baseline_evidence(pid, latest_at, window as int, base).raw);
    e
}

/// Memory breakdown plus, when enough history exists, the RSS growth over
/// the recorded samples. `now` is when the evidence was collected.
pub fn why_memory(intel: &ProcessIntelligence, pid: Pid, now: i64) -> (f: Finding)
    requires
        intel.wf(),
        window_fits(intel@, pid),
    ensures
        f@ == why_memory_view(intel@, pid, now),
        f.is_supported(),
{
    let process = match intel.process(pid) {
        Some(p) => p,
        None => {
            return not_found(pid);
        },
    };
    let ghost m = intel@;
    let ghost p = m.current[pid];
    assert(process@ == p);
    let history = intel.history(pid);
    let ghost h = history_for(m, pid);
    assert(samples_view(history@) == h);
    assert(h.len() == history@.len());
    let rss = process.memory.rss;
    let ev0 = memory_evidence_of(pid, now, &process.memory);
    let mut evidence: Vec<Evidence> = Vec::new();
    evidence.push(ev0);
    if history.len() < 2 {
        let mut n = String::new();
        push_who(&mut n, &process.name, pid);
        n.append(" is using ");
        push_decimal(&mut n, rss as u128);
        n.append(" bytes RSS; no history yet to assess growth");
        proof {
            assert(evidence@ =~= seq![ev0]);
            lemma_views_one(ev0);
        }
        let f = make_finding(Severity::Info, "Memory usage", n, Confidence::Observed, evidence);
        assert(f@.narrative =~= why_memory_view(m, pid, now).narrative);
        return f;
    }
    let baseline_at = history[0].0;
    let base = history[0].1.memory.rss;
    let latest_at = history[history.len() - 1].0;
    assert(h[0].0 == baseline_at && h[0].1.memory.rss == base);
    assert(h.last().0 == latest_at);
    if base == 0 {
        let mut n = String::new();
        push_who(&mut n, &process.name, pid);
        n.append(" is using ");
        push_decimal(&mut n, rss as u128);
        n.append(" bytes RSS");
        proof {
            assert(evidence@ =~= seq![ev0]);
            lemma_views_one(ev0);
        }
        let f = make_finding(Severity::Info, "Memory usage", n, Confidence::Observed, evidence);
        assert(f@.narrative =~= why_memory_view(m, pid, now).narrative);
        return f;
    }
    let window = latest_at - baseline_at;
    let ev1 = baseline_evidence_of(pid, latest_at, window, base);
    evidence.push(ev1);
    proof {
        assert(evidence@ =~= seq![ev0, ev1]);
        lemma_views_two(ev0, ev1);
    }
    let delta: i128 = (rss as i128 - base as i128) * 100;
    if window >= DEFAULT_GROWTH_WINDOW_SECS && delta >= DEFAULT_GROWTH_THRESHOLD_PERCENT as i128 * base as i128 {
        let mut n = String::new();
        push_who(&mut n, &process.name, pid);
        n.append("'s RSS grew ");
        push_ratio(&mut n, delta, base as i128);
        n.append("% over the last ");
        push_signed(&mut n, window / 60);
        n.append("m — worth checking for a leak");
        let f = make_finding(Severity::Warning, "Sustained memory growth", n, Confidence::Likely, evidence);
        assert(f@.narrative =~= why_memory_view(m, pid, now).narrative);
        f
    } else {
        let mut n = String::new();
        push_who(&mut n, &process.name, pid);
        n.append("'s RSS changed ");
        push_ratio(&mut n, delta, base as i128);
        n.append("% over the last ");
        push_signed(&mut n, window);
        n.append("s (below the ");
        push_decimal(&mut n, DEFAULT_GROWTH_THRESHOLD_PERCENT as u128);
        n.append("%/");
        push_decimal(&mut n, (DEFAULT_GROWTH_WINDOW_SECS / 60) as u128);
        n.append("m threshold, or too little history yet)");
        let f = make_finding(Severity::Info, "Memory usage", n, Confidence::Correlated, evidence);
        assert(f@.narrative =~= why_memory_view(m, pid, now).narrative);
        f
    }
}

// ---------------------------------------------------------------------
// Network and disk
// ---------------------------------------------------------------------

/// How many of `conns` are established.
pub open spec fn established_count(conns: Seq<NetworkConnection>) -> nat {
    conns.filter(|c: NetworkConnection| c.state == ConnectionState::Established).len()
}

/// What `why_network` finds: how many connections and sockets the process
/// holds, and how many of them are established.
pub open spec fn why_network_view(intel: IntelModel, pid: Pid, conns: Seq<NetworkConnection>, now: i64) -> FindingView {
    if !intel.current.contains_key(pid) {
        not_found_view(pid)
    } else {
        let p = intel.current[pid];
        let est = established_count(conns);
        let ev = EvidenceView {
            source: "connections of process "@ + signed_decimal(pid as int),
            collected_at: now,
            description: "open connections/sockets"@,
            raw: decimal(conns.len()) + " total, "@ + decimal(est) + " established"@,
        };
        if conns.len() == 0 {
            finding(
                Severity::Info,
                "Network activity"@,
                who(p.name@, pid) + " has no open network connections"@,
                Confidence::Observed,
                seq![ev],
            )
        } else {
            finding(
                Severity::Info,
                "Network activity"@,
                who(p.name@, pid) + " holds "@ + decimal(conns.len()) + " connections/sockets ("@ + decimal(est)
                    + " established)"@,
                Confidence::Observed,
                seq![ev],
            )
        }
    }
}

/// Counts the established connections of `conns`.
fn count_established(conns: &Vec<NetworkConnection>) -> (n: usize)
    ensures
        n == established_count(conns@),
{
    let ghost pred = |c: NetworkConnection| c.state == ConnectionState::Established;
    let mut n: usize = 0;
    let mut i: usize = 0;
    while i < conns.len()
        invariant
            i <= conns@.len(),
            pred == (|c: NetworkConnection| c.state == ConnectionState::Established),
            n == conns@.take(i as int).filter(pred).len(),
            n <= i,
        decreases conns@.len() - i,
    {
        proof {
            assert(conns@.take(i + 1) =~= conns@.take(i as int).push(conns@[i as int]));
            conns@.take(i as int).lemma_filter_push(conns@[i as int], pred);
        }
        if conns[i].state == ConnectionState::Established {
            n = n + 1;
        }
        i += 1;
    }
    assert(conns@.take(conns@.len() as int) =~= conns@);
    n
}

/// A connection-count summary of the process's live connections
/// (`connections`, read by the caller; empty when they could not be
/// read). `now` is when the evidence was collected.
pub fn why_network(intel: &ProcessIntelligence, pid: Pid, connections: &Vec<NetworkConnection>, now: i64) -> (f: Finding)
    ensures
        f@ == why_network_view(intel@, pid, connections@, now),
        f.is_supported(),
{
    let process = match intel.process(pid) {
        Some(p) => p,
        None => {
            return not_found(pid);
        },
    };
    let ghost m = intel@;
    assert(process@ == m.current[pid]);
    let established = count_established(connections);
    let total = connections.len();
    let mut source = String::from_str("connections of process ");
    push_signed(&mut source, pid as i64);
    let mut raw = String::new();
    push_decimal(&mut raw, total as u128);
    raw.append(" total, ");
    push_decimal(&mut raw, established as u128);
    raw.append(" established");
    let ev = Evidence {
        source,
        collected_at: now,
        description: String::from_str("open connections/sockets"),
        raw,
    };
    let mut evidence: Vec<Evidence> = Vec::new();
    evidence.push(ev);
    proof {
        assert(evidence@ =~= seq![ev]);
        lemma_views_one(ev);
        assert(ev@.raw =~= decimal(connections@.len()) + " total, "@ + decimal(established_count(connections@)) + " established"@);
    }
    let mut n = String::new();
    push_who(&mut n, &process.name, pid);
    if total == 0 {
        n.append(" has no open network connections");
        let f = make_finding(Severity::Info, "Network activity", n, Confidence::Observed, evidence);
        assert(f@ =~= why_network_view(m, pid, connections@, now));
        f
    } else {
        n.append(" holds ");
        push_decimal(&mut n, total as u128);
        n.append(" connections/sockets (");
        push_decimal(&mut n, established as u128);
        n.append(" established)");
        let f = make_finding(Severity::Info, "Network activity", n, Confidence::Observed, evidence);
        assert(f@.narrative =~= why_network_view(m, pid, connections@, now).narrative);
        assert(f@ =~= why_network_view(m, pid, connections@, now));
        f
    }
}

/// What `why_disk` finds: the cumulative bytes read and written since the
/// process started, or, when the counters could not be read (`None`), a
/// finding that says so.
pub open spec fn why_disk_view(intel: IntelModel, pid: Pid, io: Option<DiskIoStats>, now: i64) -> FindingView {
    if !intel.current.contains_key(pid) {
        not_found_view(pid)
    } else {
        let p = intel.current[pid];
        match io {
            None => finding(
                Severity::Info,
                "Disk I/O"@,
                who(p.name@, pid) + "'s /proc/[pid]/io could not be read (permission denied or unsupported)"@,
                Confidence::Unknown,
                Seq::empty(),
            ),
            Some(io) => finding(
                Severity::Info,
                "Disk I/O"@,
                who(p.name@, pid) + " has read "@ + decimal(io.read_bytes as nat) + " and written "@
                    + decimal(io.write_bytes as nat) + " bytes from/to disk since it started"@,
                Confidence::Observed,
                seq![EvidenceView {
                    source: "/proc/"@ + signed_decimal(pid as int) + "/io"@,
                    collected_at: now,
                    description: "cumulative disk I/O since process start"@,
                    raw: "read_bytes="@ + decimal(io.read_bytes as nat) + " write_bytes="@ + decimal(io.write_bytes as nat),
                }],
            ),
        }
    }
}

/// The cumulative disk I/O counters of the process (`disk_io`, read by the
/// caller; `None` when they could not be read). A rate would need two
/// readings apart in time, which are not kept, so only totals are
/// reported. `now` is when the evidence was collected.
pub fn why_disk(intel: &ProcessIntelligence, pid: Pid, disk_io: Option<DiskIoStats>, now: i64) -> (f: Finding)
    ensures
        f@ == why_disk_view(intel@, pid, disk_io, now),
        f.is_supported(),
{
    let process = match intel.process(pid) {
        Some(p) => p,
        None => {
            return not_found(pid);
        },
    };
    let ghost m = intel@;
    assert(process@ == m.current[pid]);
    let mut n = String::new();
    push_who(&mut n, &process.name, pid);
    match disk_io {
        None => {
            n.append("'s /proc/[pid]/io could not be read (permission denied or unsupported)");
            let none: Vec<Evidence> = Vec::new();
            assert(evidence_views(none@) =~= Seq::<EvidenceView>::empty());
            let f = make_finding(Severity::Info, "Disk I/O", n, Confidence::Unknown, none);
            assert(f@ =~= why_disk_view(m, pid, disk_io, now));
            f
        },
        Some(io) => {
            let mut source = String::from_str("/proc/");
            push_signed(&mut source, pid as i64);
            source.append("/io");
            let mut raw = String::from_str("read_bytes=");
            push_decimal(&mut raw, io.read_bytes as u128);
            raw.append(" write_bytes=");
            push_decimal(&mut raw, io.write_bytes as u128);
            let ev = Evidence {
                source,
                collected_at: now,
                description: String::from_str("cumulative disk I/O since process start"),
                raw,
            };
            let mut evidence: Vec<Evidence> = Vec::new();
            evidence.push(ev);
            proof {
                assert(evidence@ =~= seq![ev]);
                lemma_views_one(ev);
            }
            n.append(" has read ");
            push_decimal(&mut n, io.read_bytes as u128);
            n.append(" and written ");
            push_decimal(&mut n, io.write_bytes as u128);
            n.append(" bytes from/to disk since it started");
            let f = make_finding(Severity::Info, "Disk I/O", n, Confidence::Observed, evidence);
            assert(f@.narrative =~= why_disk_view(m, pid, disk_io, now).narrative);
            assert(f@.evidence[0].source =~= why_disk_view(m, pid, disk_io, now).evidence[0].source);
            assert(f@.evidence[0].raw =~= why_disk_view(m, pid, disk_io, now).evidence[0].raw);
            assert(f@.evidence =~= why_disk_view(m, pid, disk_io, now).evidence);
            f
        },
    }
}

/// The values of a list of findings.
pub open spec fn findings_view(v: Seq<Finding>) -> Seq<FindingView> {
    v.map_values(|f: Finding| f@)
}

/// Runs every "why" rule against `pid` — CPU, memory, network, disk, in
/// that order — or answers with the single not-found finding when `pid`
/// is not live.
pub fn investigate(
    intel: &ProcessIntelligence,
    pid: Pid,
    threads: &Vec<ThreadSnapshot>,
    connections: &Vec<NetworkConnection>,
    disk_io: Option<DiskIoStats>,
    now: i64,
) -> (r: Vec<Finding>)
    requires
        intel.wf(),
        ticks_sum(threads@) <= u64::MAX,
        window_fits(intel@, pid),
    ensures
        !intel@.current.contains_key(pid) ==> findings_view(r@) == seq![not_found_view(pid)],
        intel@.current.contains_key(pid) ==> findings_view(r@) == seq![
            why_cpu_view(intel@, pid, threads@, now),
            why_memory_view(intel@, pid, now),
            why_network_view(intel@, pid, connections@, now),
            why_disk_view(intel@, pid, disk_io, now),
        ],
        forall|i: int| 0 <= i < r@.len() ==> #[trigger] r@[i].is_supported(),
{
    let mut out: Vec<Finding> = Vec::new();
    if intel.process(pid).is_none() {
        out.push(not_found(pid));
        assert(findings_view(out@) =~= seq![not_found_view(pid)]);
        return out;
    }
    out.push(why_cpu(intel, pid, threads, now));
    out.push(why_memory(intel, pid, now));
    out.push(why_network(intel, pid, connections, now));
    out.push(why_disk(intel, pid, disk_io, now));
    assert(findings_view(out@) =~= seq![
        why_cpu_view(intel@, pid, threads@, now),
        why_memory_view(intel@, pid, now),
        why_network_view(intel@, pid, connections@, now),
        why_disk_view(intel@, pid, disk_io, now),
    ]);
    out
}

// ---------------------------------------------------------------------
// Crash analysis
// ---------------------------------------------------------------------

/// The index of the first `Exited` event of `tl`, or `-1`.
pub open spec fn first_exit(tl: Seq<EventView>) -> int
    decreases tl.len(),
{
    if tl.len() == 0 {
        -1
    } else {
        let r = first_exit(tl.drop_last());
        if r >= 0 {
            r
        } else if tl.last().kind is Exited {
            tl.len() - 1
        } else {
            -1
        }
    }
}

/// The index of the last memory-growth event of `tl` observed no later
/// than `at`, or `-1`.
pub open spec fn last_growth_until(tl: Seq<EventView>, at: i64) -> int
    decreases tl.len(),
{
    if tl.len() == 0 {
        -1
    } else if tl.last().kind is MemoryGrowthThresholdCrossed && tl.last().at <= at {
        tl.len() - 1
    } else {
        last_growth_until(tl.drop_last(), at)
    }
}

/// The index of the first of `lines` that contains `needle`, or `-1`.
pub open spec fn first_mentioning(lines: Seq<Seq<char>>, needle: Seq<char>) -> int
    decreases lines.len(),
{
    if lines.len() == 0 {
        -1
    } else {
        let r = first_mentioning(lines.drop_last(), needle);
        if r >= 0 {
            r
        } else if has_substring(lines.last(), needle) {
            lines.len() - 1
        } else {
            -1
        }
    }
}




/// What `crash_analysis` finds about `pid`, given the OOM-kill lines of
/// the kernel log: nothing while no exit is recorded; otherwise the exit
/// event, the last memory-growth event recorded before it, and the first
/// OOM-kill line that mentions the pid, with a verdict on which of the
/// two were found.
pub open spec fn crash_view(intel: IntelModel, pid: Pid, lines: Seq<Seq<char>>) -> FindingView {
    let tl = timeline_for(intel, pid);
    let x = first_exit(tl);
    let id = signed_decimal(pid as int);
    if x < 0 {
        finding(
            Severity::Info,
            "Crash analysis"@,
            "pid "@ + id + " has no recorded exit yet"@,
            Confidence::Unknown,
            Seq::empty(),
        )
    } else {
        let ex = tl[x];
        let source = "timeline of process "@ + id;
        let ev0 = EvidenceView { source, collected_at: ex.at, description: "exit event"@, raw: ex.description };
        let g = last_growth_until(tl, ex.at);
        let o = first_mentioning(lines, id);
        let gev = EvidenceView {
            source,
            collected_at: tl[g].at,
            description: "memory-growth event preceding exit"@,
            raw: tl[g].description,
        };
        let oev = EvidenceView {
            source: "kernel log"@,
            collected_at: ex.at,
            description: "matching OOM-kill line"@,
            raw: lines[o],
        };
        if g >= 0 && o >= 0 {
            finding(
                Severity::Critical,
                "Likely OOM kill"@,
                "pid "@ + id + " exited after sustained memory growth, and the kernel log records an OOM kill mentioning this pid"@,
                Confidence::Likely,
                seq![ev0, gev, oev],
            )
        } else if o >= 0 {
            finding(
                Severity::Warning,
                "Possible OOM kill"@,
                "pid "@ + id + " exited and the kernel log records an OOM kill mentioning this pid, but no sustained memory growth was recorded beforehand"@,
                Confidence::Correlated,
                seq![ev0, oev],
            )
        } else if g >= 0 {
            finding(
                Severity::Notice,
                "Exit preceded by memory growth"@,
                "pid "@ + id + " exited after sustained memory growth was recorded, but no matching kernel OOM-kill line was found"@,
                Confidence::Correlated,
                seq![ev0, gev],
            )
        } else {
            finding(
                Severity::Info,
                "Exit, cause unclear"@,
                "pid "@ + id + " exited; no sustained memory growth or OOM-kill line was found to explain why"@,
                Confidence::Unknown,
                Seq::empty(),
            )
        }
    }
}

fn is_exit(e: &TimelineEvent) -> (b: bool)
    ensures
        b == (e@.kind is Exited),
{
    match e.kind {
        TimelineEventKind::Exited { .. } => true,
        _ => false,
    }
}

fn is_growth(e: &TimelineEvent) -> (b: bool)
    ensures
        b == (e@.kind is MemoryGrowthThresholdCrossed),
{
    match e.kind {
        TimelineEventKind::MemoryGrowthThresholdCrossed { .. } => true,
        _ => false,
    }
}

/// Correlates `pid`'s recorded exit with its memory-growth events and the
/// OOM-kill lines already extracted from the kernel log (the caller reads
/// the log).
pub fn crash_analysis(intel: &ProcessIntelligence, pid: Pid, oom_kill_lines: &[String]) -> (f: Finding)
    ensures
        f@ == crash_view(intel@, pid, strings_view(oom_kill_lines@)),
        f.is_supported(),
{
    let ghost m = intel@;
    let ghost lines = strings_view(oom_kill_lines@);
    let timeline = intel.timeline(pid);
    let ghost tv = events_view(timeline@);
    assert(tv == timeline_for(m, pid));
    let mut id = String::new();
    push_signed(&mut id, pid as i64);

    // The first exit.
    let mut x: usize = 0;
    let mut found = false;
    let mut i: usize = 0;
    while i < timeline.len()
        invariant
            i <= timeline@.len(),
            tv == events_view(timeline@),
            !found ==> first_exit(tv.take(i as int)) == -1,
            found ==> x < i && first_exit(tv.take(i as int)) == x,
        decreases timeline@.len() - i,
    {
        proof {
            let t1 = tv.take(i + 1);
            assert(t1.drop_last() =~= tv.take(i as int));
            assert(t1.last() == tv[i as int]);
            assert(tv[i as int] == timeline@[i as int]@);
        }
        if !found && is_exit(&timeline[i]) {
            x = i;
            found = true;
        }
        i += 1;
    }
    assert(tv.take(tv.len() as int) =~= tv);
    if !found {
        let mut n = String::from_str("pid ");
        n.append(id.as_str());
        n.append(" has no recorded exit yet");
        let none: Vec<Evidence> = Vec::new();
        assert(evidence_views(none@) =~= Seq::<EvidenceView>::empty());
        let f = make_finding(Severity::Info, "Crash analysis", n, Confidence::Unknown, none);
        assert(f@ =~= crash_view(m, pid, lines));
        return f;
    }
    let exit_at = timeline[x].at;
    assert(tv[x as int] == timeline@[x as int]@);
    let ev0 = Evidence {
        source: {
            let mut s = String::from_str("timeline of process ");
            s.append(id.as_str());
            s
        },
        collected_at: exit_at,
        description: String::from_str("exit event"),
        raw: timeline[x].description.clone(),
    };

    // The last memory-growth event up to the exit.
    let mut g: usize = 0;
    let mut grew = false;
    let mut j: usize = 0;
    while j < timeline.len()
        invariant
            j <= timeline@.len(),
            tv == events_view(timeline@),
            !grew ==> last_growth_until(tv.take(j as int), exit_at) == -1,
            grew ==> g < j && last_growth_until(tv.take(j as int), exit_at) == g,
        decreases timeline@.len() - j,
    {
        proof {
            let t1 = tv.take(j + 1);
            assert(t1.drop_last() =~= tv.take(j as int));
            assert(t1.last() == tv[j as int]);
            assert(tv[j as int] == timeline@[j as int]@);
        }
        if is_growth(&timeline[j]) && timeline[j].at <= exit_at {
            g = j;
            grew = true;
        }
        j += 1;
    }

    // The first kernel-log line that mentions the pid.
    let mut o: usize = 0;
    let mut mentioned = false;
    let mut k: usize = 0;
    while k < oom_kill_lines.len()
        invariant
            k <= oom_kill_lines@.len(),
            lines == strings_view(oom_kill_lines@),
            id@ == signed_decimal(pid as int),
            !mentioned ==> first_mentioning(lines.take(k as int), id@) == -1,
            mentioned ==> o < k && first_mentioning(lines.take(k as int), id@) == o,
        decreases oom_kill_lines@.len() - k,
    {
        proof {
            let t1 = lines.take(k + 1);
            assert(t1.drop_last() =~= lines.take(k as int));
            assert(t1.last() == lines[k as int]);
            assert(lines[k as int] == oom_kill_lines@[k as int]@);
        }
        if !mentioned && str_contains(oom_kill_lines[k].as_str(), id.as_str()) {
            o = k;
            mentioned = true;
        }
        k += 1;
    }
    assert(lines.take(lines.len() as int) =~= lines);

    let ghost want = crash_view(m, pid, lines);
    let mut evidence: Vec<Evidence> = Vec::new();
    evidence.push(ev0);
    if grew {
        assert(tv[g as int] == timeline@[g as int]@);
        let gev = Evidence {
            source: {
                let mut s = String::from_str("timeline of process ");
                s.append(id.as_str());
                s
            },
            collected_at: timeline[g].at,
            description: String::from_str("memory-growth event preceding exit"),
            raw: timeline[g].description.clone(),
        };
        if mentioned {
            let oev = Evidence {
                source: String::from_str("kernel log"),
                collected_at: exit_at,
                description: String::from_str("matching OOM-kill line"),
                raw: oom_kill_lines[o].clone(),
            };
            evidence.push(gev);
            evidence.push(oev);
            proof {
                assert(evidence@ =~= seq![ev0, gev, oev]);
                lemma_views_three(ev0, gev, oev);
            }
            let mut n = String::from_str("pid ");
            n.append(id.as_str());
            n.append(" exited after sustained memory growth, and the kernel log records an OOM kill mentioning this pid");
            let f = make_finding(Severity::Critical, "Likely OOM kill", n, Confidence::Likely, evidence);
            assert(f@.narrative =~= want.narrative);
            assert(f@.evidence =~= want.evidence);
            f
        } else {
            evidence.push(gev);
            proof {
                assert(evidence@ =~= seq![ev0, gev]);
                lemma_views_two(ev0, gev);
            }
            let mut n = String::from_str("pid ");
            n.append(id.as_str());
            n.append(" exited after sustained memory growth was recorded, but no matching kernel OOM-kill line was found");
            let f = make_finding(Severity::Notice, "Exit preceded by memory growth", n, Confidence::Correlated, evidence);
            assert(f@.narrative =~= want.narrative);
            assert(f@.evidence =~= want.evidence);
            f
        }
    } else if mentioned {
        let oev = Evidence {
            source: String::from_str("kernel log"),
            collected_at: exit_at,
            description: String::from_str("matching OOM-kill line"),
            raw: oom_kill_lines[o].clone(),
        };
        evidence.push(oev);
        proof {
            assert(evidence@ =~= seq![ev0, oev]);
            lemma_views_two(ev0, oev);
        }
        let mut n = String::from_str("pid ");
        n.append(id.as_str());
        n.append(" exited and the kernel log records an OOM kill mentioning this pid, but no sustained memory growth was recorded beforehand");
        let f = make_finding(Severity::Warning, "Possible OOM kill", n, Confidence::Correlated, evidence);
        assert(f@.narrative =~= want.narrative);
        assert(f@.evidence =~= want.evidence);
        f
    } else {
        let mut n = String::from_str("pid ");
        n.append(id.as_str());
        n.append(" exited; no sustained memory growth or OOM-kill line was found to explain why");
        let none: Vec<Evidence> = Vec::new();
        assert(evidence_views(none@) =~= Seq::<EvidenceView>::empty());
        let f = make_finding(Severity::Info, "Exit, cause unclear", n, Confidence::Unknown, none);
        assert(f@.narrative =~= want.narrative);
        assert(f@ =~= want);
        f
    }
}

/// The memory finding is `Likely` sustained growth exactly when the
/// process is tracked, its recorded samples span at least the growth
/// window, and its RSS grew from the oldest of them (a positive RSS) by at
/// least the threshold percentage; that finding is the warning titled
/// "Sustained memory growth". Growth over a shorter span is never flagged.
pub proof fn sustained_growth_needs_a_full_window(intel: IntelModel, pid: Pid, now: i64)
    ensures
        (why_memory_view(intel, pid, now).confidence == Confidence::Likely) <==> {
            let h = history_for(intel, pid);
            &&& intel.current.contains_key(pid)
            &&& h.len() >= 2
            &&& h.last().0 - h[0].0 >= DEFAULT_GROWTH_WINDOW_SECS
            &&& h[0].1.memory.rss > 0
            &&& (intel.current[pid].memory.rss - h[0].1.memory.rss) * 100
                >= DEFAULT_GROWTH_THRESHOLD_PERCENT * h[0].1.memory.rss
        },
        why_memory_view(intel, pid, now).confidence == Confidence::Likely ==> {
            &&& why_memory_view(intel, pid, now).severity == Severity::Warning
            &&& why_memory_view(intel, pid, now).title == "Sustained memory growth"@
        },
{
}


/// The user plus system CPU ticks of a list of threads, added up.
pub open spec fn user_and_system_ticks(ts: Seq<ThreadSnapshot>) -> int
    decreases ts.len(),
{
    if ts.len() == 0 {
        0
    } else {
        user_and_system_ticks(ts.drop_last()) + ts.last().cpu.utime_ticks + ts.last().cpu.stime_ticks
    }
}

proof fn lemma_ticks_are_user_and_system(ts: Seq<ThreadSnapshot>)
    ensures
        ticks_sum(ts) == user_and_system_ticks(ts),
        user_and_system_ticks(ts) >= 0,
        forall|i: int| 0 <= i < ts.len() ==> thread_ticks(#[trigger] ts[i]) == ts[i].cpu.utime_ticks + ts[i].cpu.stime_ticks,
    decreases ts.len(),
{
    if ts.len() > 0 {
        lemma_ticks_are_user_and_system(ts.drop_last());
    }
}

proof fn lemma_busiest_is_a_maximum(ts: Seq<ThreadSnapshot>)
    requires
        ts.len() > 0,
    ensures
        0 <= busiest(ts) < ts.len(),
        forall|j: int| 0 <= j < ts.len() ==> thread_ticks(#[trigger] ts[j]) <= thread_ticks(ts[busiest(ts)]),
    decreases ts.len(),
{
    if ts.len() > 1 {
        let d = ts.drop_last();
        lemma_busiest_is_a_maximum(d);
        assert forall|j: int| 0 <= j < ts.len() implies thread_ticks(#[trigger] ts[j]) <= thread_ticks(ts[busiest(ts)]) by {
            if j < d.len() {
                assert(d[j] == ts[j]);
            }
            assert(d[busiest(d)] == ts[busiest(d)]);
        }
    }
}

/// A tracked process with more than one thread gets the single-thread
/// dominance notice exactly when, counting each thread's user plus system
/// ticks, some thread holds at least `DOMINANCE_THRESHOLD_PERCENT` of the
/// (non-zero) total; a thread busy in the kernel counts as busy.
pub proof fn dominance_counts_user_and_system_ticks(
    intel: IntelModel,
    pid: Pid,
    threads: Seq<ThreadSnapshot>,
    now: i64,
)
    requires
        intel.current.contains_key(pid),
    ensures
        (why_cpu_view(intel, pid, threads, now).severity == Severity::Notice) <==> {
            &&& threads.len() > 1
            &&& user_and_system_ticks(threads) > 0
            &&& exists|i: int| 0 <= i < threads.len()
                && (#[trigger] threads[i].cpu.utime_ticks + threads[i].cpu.stime_ticks) * 100
                    >= DOMINANCE_THRESHOLD_PERCENT * user_and_system_ticks(threads)
        },
{
    lemma_ticks_are_user_and_system(threads);
    let total = user_and_system_ticks(threads);
    let f = why_cpu_view(intel, pid, threads, now);
    if threads.len() > 1 && total > 0 {
        lemma_busiest_is_a_maximum(threads);
        let b = busiest(threads);
        let top = threads[b];
        assert(thread_ticks(top) == top.cpu.utime_ticks + top.cpu.stime_ticks);
        if thread_ticks(top) * 100 >= DOMINANCE_THRESHOLD_PERCENT * total {
            assert(f.severity == Severity::Notice);
            assert((threads[b].cpu.utime_ticks + threads[b].cpu.stime_ticks) * 100
                >= DOMINANCE_THRESHOLD_PERCENT * user_and_system_ticks(threads));
        } else {
            assert(f.severity == Severity::Info);
            assert forall|i: int| 0 <= i < threads.len() implies !((#[trigger] threads[i].cpu.utime_ticks
                + threads[i].cpu.stime_ticks) * 100 >= DOMINANCE_THRESHOLD_PERCENT * total) by {
                assert(thread_ticks(threads[i]) <= thread_ticks(top));
            }
        }
    } else if threads.len() == 0 || total == 0 {
        assert(ticks_sum(threads) == 0);
        assert(f.severity == Severity::Info);
    } else {
        assert(threads.len() == 1);
        assert(ticks_sum(threads) != 0);
        assert(f.severity == Severity::Info);
    }
}

/// The network finding of a tracked process reports how many of its
/// connections are established, counted so: none in an empty list, and
/// one more for an added connection exactly when its state is
/// `Established` (a connection in any other state, listening or closing,
/// adds none).
pub proof fn established_counts_only_established_connections(
    intel: IntelModel,
    pid: Pid,
    conns: Seq<NetworkConnection>,
    c: NetworkConnection,
    now: i64,
)
    ensures
        established_count(Seq::empty()) == 0,
        established_count(conns.push(c)) == established_count(conns)
            + (if c.state == ConnectionState::Established { 1int } else { 0 }),
        intel.current.contains_key(pid) ==> why_network_view(intel, pid, conns, now).evidence == seq![EvidenceView {
            source: "connections of process "@ + signed_decimal(pid as int),
            collected_at: now,
            description: "open connections/sockets"@,
            raw: decimal(conns.len()) + " total, "@ + decimal(established_count(conns)) + " established"@,
        }],
{
    let pred = |x: NetworkConnection| x.state == ConnectionState::Established;
    conns.lemma_filter_push(c, pred);
    assert(Seq::<NetworkConnection>::empty().filter(pred) =~= Seq::empty());
}
} // verus!
