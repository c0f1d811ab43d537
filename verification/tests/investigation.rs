use sher_pe::cpu::CpuStats;
use sher_pe::evidence::{Confidence, Severity};
use sher_pe::intelligence::{ProcessIntelligence, ProcessReading, DEFAULT_GROWTH_WINDOW_SECS};
use sher_pe::investigation::{
    crash_analysis, investigate, not_found, why_cpu, why_disk, why_memory, why_network,
};
use sher_pe::io::DiskIoStats;
use sher_pe::memory::MemoryBreakdown;
use sher_pe::network::{ConnectionState, NetworkConnection, Protocol};
use sher_pe::process::{ProcessSnapshot, ProcessState};
use sher_pe::thread::ThreadSnapshot;
use sher_pe::Pid;

fn snap(pid: Pid, ppid: Pid, start_time: u64, rss: u64) -> ProcessSnapshot {
    ProcessSnapshot {
        pid,
        ppid,
        name: format!("proc-{pid}"),
        cmdline: vec![],
        exe: None,
        state: ProcessState::Running,
        uid: 1000,
        gid: 1000,
        start_time,
        cpu: CpuStats::default(),
        memory: MemoryBreakdown {
            rss,
            ..Default::default()
        },
        thread_count: 1,
        open_file_count: 0,
        cgroup: None,
    }
}

fn thread(tid: Pid, name: &str, state: ProcessState, utime: u64) -> ThreadSnapshot {
    ThreadSnapshot {
        tid,
        name: name.into(),
        state,
        cpu: CpuStats {
            utime_ticks: utime,
            ..Default::default()
        },
        priority: 20,
        nice: 0,
        affinity: vec![],
    }
}

fn reading(s: ProcessSnapshot) -> ProcessReading {
    ProcessReading {
        snapshot: s,
        connections: Some(vec![]),
    }
}

fn with(processes: Vec<ProcessSnapshot>, now: i64) -> ProcessIntelligence {
    let mut intel = ProcessIntelligence::new();
    intel.refresh_at(now, processes.into_iter().map(reading).collect());
    intel
}

#[test]
fn why_cpu_reports_unknown_for_missing_process() {
    let intel = ProcessIntelligence::new();
    let finding = why_cpu(&intel, 999, &vec![], 0);
    assert_eq!(finding.confidence, Confidence::Unknown);
}

#[test]
fn why_cpu_flags_single_thread_dominance() {
    let intel = with(vec![snap(1, 0, 100, 1000)], 1000);
    let threads = vec![
        thread(1, "main", ProcessState::Running, 950),
        thread(2, "helper", ProcessState::Sleeping, 50),
    ];

    let finding = why_cpu(&intel, 1, &threads, 1000);
    assert_eq!(finding.title, "Single-thread CPU dominance");
    assert_eq!(finding.confidence, Confidence::Correlated);
}

#[test]
fn why_cpu_reports_spread_when_no_thread_dominates() {
    let intel = with(vec![snap(1, 0, 100, 1000)], 1000);
    let threads = vec![
        thread(1, "a", ProcessState::Running, 500),
        thread(2, "b", ProcessState::Running, 500),
    ];

    let finding = why_cpu(&intel, 1, &threads, 1000);
    assert_eq!(finding.title, "CPU usage spread across threads");
}

#[test]
fn why_memory_reports_observed_with_no_history() {
    let intel = with(vec![snap(1, 0, 100, 1000)], 1000);

    let finding = why_memory(&intel, 1, 1000);
    assert_eq!(finding.confidence, Confidence::Observed);
}

#[test]
fn why_memory_flags_sustained_growth_over_full_window() {
    let mut intel = ProcessIntelligence::new();
    intel.refresh_at(0, vec![reading(snap(1, 0, 100, 1_000_000))]);
    intel.refresh_at(DEFAULT_GROWTH_WINDOW_SECS, vec![reading(snap(1, 0, 100, 1_700_000))]);

    let finding = why_memory(&intel, 1, DEFAULT_GROWTH_WINDOW_SECS);
    assert_eq!(finding.title, "Sustained memory growth");
    assert_eq!(finding.confidence, Confidence::Likely);
    assert_eq!(finding.severity, Severity::Warning);
}

#[test]
fn why_network_reports_no_connections() {
    let intel = with(vec![snap(1, 0, 100, 1000)], 1000);

    let finding = why_network(&intel, 1, &vec![], 1000);
    assert_eq!(finding.title, "Network activity");
    assert_eq!(finding.confidence, Confidence::Observed);
}

#[test]
fn why_network_counts_established_connections() {
    let intel = with(vec![snap(1, 0, 100, 1000)], 1000);
    let connections = vec![NetworkConnection {
        protocol: Protocol::Tcp,
        local_addr: "127.0.0.1:1".into(),
        remote_addr: "10.0.0.1:443".into(),
        state: ConnectionState::Established,
        inode: 1,
    }];

    let finding = why_network(&intel, 1, &connections, 1000);
    assert!(finding.narrative.contains("1 established"));
}

#[test]
fn why_disk_reports_cumulative_bytes() {
    let intel = with(vec![snap(1, 0, 100, 1000)], 1000);
    let io = DiskIoStats {
        read_bytes: 4096,
        write_bytes: 1024,
    };

    let finding = why_disk(&intel, 1, Some(io), 1000);
    assert_eq!(finding.confidence, Confidence::Observed);
    assert!(finding.narrative.contains("4096"));
    assert!(finding.narrative.contains("1024"));
}

#[test]
fn investigate_runs_all_rules_for_a_live_process() {
    let intel = with(vec![snap(1, 0, 100, 1000)], 1000);

    let findings = investigate(&intel, 1, &vec![], &vec![], None, 1000);
    assert_eq!(findings.len(), 4);
}

#[test]
fn investigate_returns_single_unknown_finding_for_missing_pid() {
    let intel = ProcessIntelligence::new();
    let findings = investigate(&intel, 999, &vec![], &vec![], None, 0);
    assert_eq!(findings.len(), 1);
    assert_eq!(findings[0].confidence, Confidence::Unknown);
}

#[test]
fn crash_analysis_correlates_growth_and_oom_line() {
    let mut intel = ProcessIntelligence::new();
    intel.refresh_at(0, vec![reading(snap(7, 0, 100, 1_000_000))]);
    intel.refresh_at(DEFAULT_GROWTH_WINDOW_SECS, vec![reading(snap(7, 0, 100, 1_700_000))]);
    intel.refresh_at(DEFAULT_GROWTH_WINDOW_SECS + 10, vec![]);

    let oom_lines =
        vec!["Out of memory: Killed process 7 (proc-7) total-vm:2048000kB".to_string()];
    let finding = crash_analysis(&intel, 7, &oom_lines);

    assert_eq!(finding.title, "Likely OOM kill");
    assert_eq!(finding.confidence, Confidence::Likely);
    assert_eq!(finding.severity, Severity::Critical);
}

#[test]
fn crash_analysis_reports_unclear_without_evidence() {
    let mut intel = ProcessIntelligence::new();
    intel.refresh_at(1000, vec![reading(snap(8, 0, 100, 1000))]);
    intel.refresh_at(1001, vec![]);

    let finding = crash_analysis(&intel, 8, &[]);
    assert_eq!(finding.title, "Exit, cause unclear");
    assert_eq!(finding.confidence, Confidence::Unknown);
}

#[test]
fn crash_analysis_unknown_when_no_exit_recorded() {
    let intel = with(vec![snap(9, 0, 100, 1000)], 1000);

    let finding = crash_analysis(&intel, 9, &[]);
    assert_eq!(finding.title, "Crash analysis");
    assert_eq!(finding.confidence, Confidence::Unknown);
}

#[test]
fn not_found_names_the_pid() {
    let f = not_found(42);
    assert_eq!(f.title, "Process not found");
    assert_eq!(f.narrative, "pid 42 is not in the currently tracked process set");
    assert_eq!(f.severity, Severity::Info);
    assert!(f.evidence.is_empty());
}

#[test]
fn why_cpu_texts_and_evidence() {
    let mut p = snap(1, 0, 100, 1000);
    p.cpu.percent_centi = 1234;
    let intel = with(vec![p], 1000);
    let threads = vec![
        thread(5, "main", ProcessState::Running, 850),
        thread(6, "helper", ProcessState::Sleeping, 150),
    ];
    let f = why_cpu(&intel, 1, &threads, 77);
    // A reading of one tick leaves the process's own utilization as read.
    assert_eq!(
        f.narrative,
        "thread 'main' (tid 5) accounts for 85.0% of proc-1's accumulated CPU ticks across 2 threads"
    );
    assert_eq!(f.severity, Severity::Notice);
    assert_eq!(f.evidence.len(), 2);
    assert_eq!(f.evidence[0].source, "process 1 snapshot");
    assert_eq!(f.evidence[0].raw, "12.3%");
    assert_eq!(f.evidence[0].collected_at, 77);
    assert_eq!(f.evidence[1].description, "top thread 'main' (tid 5)");
    assert_eq!(f.evidence[1].raw, "850 / 1000 total ticks (85.0%)");

    let none = why_cpu(&intel, 1, &vec![], 77);
    assert_eq!(
        none.narrative,
        "proc-1 (pid 1) is at 12.3% CPU; no per-thread breakdown available"
    );
    assert_eq!(none.confidence, Confidence::Observed);
    assert_eq!(none.evidence.len(), 1);
}

#[test]
fn why_cpu_dominance_needs_eighty_percent_and_two_threads() {
    let intel = with(vec![snap(1, 0, 100, 1000)], 1000);
    let at_threshold = vec![
        thread(1, "a", ProcessState::Running, 800),
        thread(2, "b", ProcessState::Running, 200),
    ];
    assert_eq!(why_cpu(&intel, 1, &at_threshold, 0).title, "Single-thread CPU dominance");
    let below = vec![
        thread(1, "a", ProcessState::Running, 799),
        thread(2, "b", ProcessState::Running, 201),
    ];
    assert_eq!(why_cpu(&intel, 1, &below, 0).title, "CPU usage spread across threads");
    let single = vec![thread(1, "a", ProcessState::Running, 800)];
    let f = why_cpu(&intel, 1, &single, 0);
    assert_eq!(f.title, "CPU usage spread across threads");
    assert_eq!(
        f.narrative,
        "proc-1 (pid 1) is at 0.0% CPU, spread across 1 threads with no single dominant thread"
    );
    // Ties go to the first of the busiest threads.
    let tie = vec![
        thread(1, "a", ProcessState::Running, 10),
        thread(2, "b", ProcessState::Running, 45),
        thread(3, "c", ProcessState::Running, 45),
    ];
    assert_eq!(why_cpu(&intel, 1, &tie, 0).evidence[1].description, "top thread 'b' (tid 2)");
    // No ticks at all: no breakdown.
    let idle = vec![thread(1, "a", ProcessState::Sleeping, 0)];
    assert_eq!(why_cpu(&intel, 1, &idle, 0).title, "CPU usage");
}

#[test]
fn why_memory_texts() {
    let mut intel = ProcessIntelligence::new();
    intel.refresh_at(0, vec![reading(snap(1, 0, 100, 1_000_000))]);
    intel.refresh_at(DEFAULT_GROWTH_WINDOW_SECS, vec![reading(snap(1, 0, 100, 1_700_000))]);
    let f = why_memory(&intel, 1, 5);
    assert_eq!(
        f.narrative,
        "proc-1 (pid 1)'s RSS grew 70.0% over the last 60m — worth checking for a leak"
    );
    assert_eq!(
        f.evidence[0].raw,
        "rss=1700000 anon=0 file=0 shared=0 private=0 swap=0 (bytes)"
    );
    assert_eq!(f.evidence[1].source, "history of process 1");
    assert_eq!(f.evidence[1].collected_at, DEFAULT_GROWTH_WINDOW_SECS);
    assert_eq!(f.evidence[1].description, "RSS at start of the observed window (3600s ago)");
    assert_eq!(f.evidence[1].raw, "1000000 bytes");

    let mut short = ProcessIntelligence::new();
    short.refresh_at(0, vec![reading(snap(1, 0, 100, 1_000_000))]);
    short.refresh_at(60, vec![reading(snap(1, 0, 100, 900_000))]);
    let g = why_memory(&short, 1, 60);
    assert_eq!(g.confidence, Confidence::Correlated);
    assert_eq!(
        g.narrative,
        "proc-1 (pid 1)'s RSS changed -10.0% over the last 60s (below the 50%/60m threshold, or too little history yet)"
    );

    let mut zero = ProcessIntelligence::new();
    zero.refresh_at(0, vec![reading(snap(1, 0, 100, 0))]);
    zero.refresh_at(60, vec![reading(snap(1, 0, 100, 4096))]);
    let z = why_memory(&zero, 1, 60);
    assert_eq!(z.narrative, "proc-1 (pid 1) is using 4096 bytes RSS");
    assert_eq!(z.confidence, Confidence::Observed);

    let one = with(vec![snap(1, 0, 100, 4096)], 0);
    assert_eq!(
        why_memory(&one, 1, 0).narrative,
        "proc-1 (pid 1) is using 4096 bytes RSS; no history yet to assess growth"
    );
}

#[test]
fn why_network_and_disk_texts() {
    let intel = with(vec![snap(3, 0, 100, 1000)], 1000);
    let conns = vec![
        NetworkConnection {
            protocol: Protocol::Tcp,
            local_addr: "127.0.0.1:1".into(),
            remote_addr: "10.0.0.1:443".into(),
            state: ConnectionState::Established,
            inode: 1,
        },
        NetworkConnection {
            protocol: Protocol::Tcp,
            local_addr: "0.0.0.0:80".into(),
            remote_addr: "".into(),
            state: ConnectionState::Listen,
            inode: 2,
        },
    ];
    let n = why_network(&intel, 3, &conns, 9);
    assert_eq!(n.narrative, "proc-3 (pid 3) holds 2 connections/sockets (1 established)");
    assert_eq!(n.evidence[0].raw, "2 total, 1 established");
    assert_eq!(n.evidence[0].source, "connections of process 3");
    let empty = why_network(&intel, 3, &vec![], 9);
    assert_eq!(empty.narrative, "proc-3 (pid 3) has no open network connections");

    let d = why_disk(&intel, 3, Some(DiskIoStats { read_bytes: 10, write_bytes: 20 }), 9);
    assert_eq!(d.evidence[0].source, "/proc/3/io");
    assert_eq!(d.evidence[0].raw, "read_bytes=10 write_bytes=20");
    assert_eq!(
        d.narrative,
        "proc-3 (pid 3) has read 10 and written 20 bytes from/to disk since it started"
    );
    let unreadable = why_disk(&intel, 3, None, 9);
    assert_eq!(unreadable.confidence, Confidence::Unknown);
    assert!(unreadable.evidence.is_empty());
    assert_eq!(
        unreadable.narrative,
        "proc-3 (pid 3)'s /proc/[pid]/io could not be read (permission denied or unsupported)"
    );
    assert_eq!(why_disk(&intel, 4, None, 9).title, "Process not found");
}

#[test]
fn crash_analysis_other_verdicts() {
    let mut intel = ProcessIntelligence::new();
    intel.refresh_at(0, vec![reading(snap(17, 0, 100, 1000))]);
    intel.refresh_at(10, vec![]);
    // The OOM line must mention the pid; "170" contains "17", as the
    // substring rule reads it.
    let lines = vec![
        "Out of memory: Killed process 23".to_string(),
        "Out of memory: Killed process 170".to_string(),
    ];
    let f = crash_analysis(&intel, 17, &lines);
    assert_eq!(f.title, "Possible OOM kill");
    assert_eq!(f.severity, Severity::Warning);
    assert_eq!(f.evidence.len(), 2);
    assert_eq!(f.evidence[0].raw, "process 17 exited");
    assert_eq!(f.evidence[0].collected_at, 10);
    assert_eq!(f.evidence[1].raw, "Out of memory: Killed process 170");

    let mut grew = ProcessIntelligence::new();
    grew.refresh_at(0, vec![reading(snap(5, 0, 100, 1_000_000))]);
    grew.refresh_at(DEFAULT_GROWTH_WINDOW_SECS, vec![reading(snap(5, 0, 100, 2_000_000))]);
    grew.refresh_at(DEFAULT_GROWTH_WINDOW_SECS + 1, vec![]);
    let g = crash_analysis(&grew, 5, &["unrelated".to_string()]);
    assert_eq!(g.title, "Exit preceded by memory growth");
    assert_eq!(g.confidence, Confidence::Correlated);
    assert_eq!(g.evidence[1].description, "memory-growth event preceding exit");
    assert_eq!(g.evidence[1].raw, "proc-5 (5) RSS grew 100.0% over the last 60m");
}

#[test]
fn percentages_round_to_one_decimal_ties_to_even() {
    let mut intel = ProcessIntelligence::new();
    intel.refresh_at(0, vec![reading(snap(1, 0, 100, 400))]);
    intel.refresh_at(60, vec![reading(snap(1, 0, 100, 449))]);
    assert!(why_memory(&intel, 1, 60).narrative.contains("changed 12.2% over the last 60s"));

    let mut up = ProcessIntelligence::new();
    up.refresh_at(0, vec![reading(snap(1, 0, 100, 400))]);
    up.refresh_at(60, vec![reading(snap(1, 0, 100, 451))]);
    assert!(why_memory(&up, 1, 60).narrative.contains("changed 12.8% over the last 60s"));

    let mut down = ProcessIntelligence::new();
    down.refresh_at(0, vec![reading(snap(1, 0, 100, 10_000))]);
    down.refresh_at(60, vec![reading(snap(1, 0, 100, 9_996))]);
    assert!(why_memory(&down, 1, 60).narrative.contains("changed -0.0% over the last 60s"));
}

#[test]
fn no_finding_claims_more_than_its_evidence() {
    let mut intel = ProcessIntelligence::new();
    intel.refresh_at(0, vec![reading(snap(1, 0, 100, 1_000_000)), reading(snap(2, 1, 100, 5))]);
    intel.refresh_at(DEFAULT_GROWTH_WINDOW_SECS, vec![reading(snap(1, 0, 100, 3_000_000))]);
    let threads = vec![thread(1, "a", ProcessState::Running, 10)];
    let mut findings = investigate(&intel, 1, &threads, &vec![], None, 1);
    findings.extend(investigate(&intel, 2, &threads, &vec![], Some(DiskIoStats::default()), 1));
    findings.push(crash_analysis(&intel, 2, &["killed process 2".to_string()]));
    findings.push(crash_analysis(&intel, 1, &[]));
    for f in &findings {
        assert!(f.confidence == Confidence::Unknown || !f.evidence.is_empty(), "{f:?}");
    }
    assert_eq!(findings.len(), 7);
}
