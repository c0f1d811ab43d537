use std::collections::BTreeMap;

use sher_pe::cpu::CpuStats;
use sher_pe::intelligence::{usable_readings, ProcessIntelligence, ProcessRead, ProcessReading, DEFAULT_GROWTH_WINDOW_SECS};
use sher_pe::memory::MemoryBreakdown;
use sher_pe::network::{ConnectionState, NetworkConnection, Protocol};
use sher_pe::process::{ProcessSnapshot, ProcessState};
use sher_pe::timeline::TimelineEventKind;
use sher_pe::Pid;

fn snap(pid: Pid, ppid: Pid, start_time: u64, utime: u64, rss: u64) -> ProcessSnapshot {
    ProcessSnapshot {
        pid,
        ppid,
        name: format!("proc-{pid}"),
        cmdline: vec![],
        exe: None,
        state: ProcessState::Running,
        uid: 1000,
        gid: 1000,
        start_time,
        cpu: CpuStats {
            utime_ticks: utime,
            stime_ticks: 0,
            ..Default::default()
        },
        memory: MemoryBreakdown {
            rss,
            ..Default::default()
        },
        thread_count: 1,
        open_file_count: 0,
        cgroup: None,
    }
}

/// The process table a refresh reads: what is set stays until removed.
#[derive(Default)]
struct Table {
    processes: BTreeMap<Pid, ProcessSnapshot>,
    connections: BTreeMap<Pid, Vec<NetworkConnection>>,
}

impl Table {
    fn set_process(&mut self, s: ProcessSnapshot) {
        self.processes.insert(s.pid, s);
    }

    fn remove_process(&mut self, pid: Pid) {
        self.processes.remove(&pid);
    }

    fn set_connections(&mut self, pid: Pid, conns: Vec<NetworkConnection>) {
        self.connections.insert(pid, conns);
    }

    fn readings(&self) -> Vec<ProcessReading> {
        self.processes
            .values()
            .map(|s| ProcessReading {
                snapshot: s.clone(),
                connections: Some(self.connections.get(&s.pid).cloned().unwrap_or_default()),
            })
            .collect()
    }
}

fn refresh(intel: &mut ProcessIntelligence, table: &Table, now: i64) {
    intel.refresh_at(now, table.readings());
}

#[test]
fn history_survives_one_grace_tick_after_exit_then_is_pruned() {
    let mut table = Table::default();
    let mut intel = ProcessIntelligence::new();
    table.set_process(snap(1, 0, 100, 0, 1000));
    refresh(&mut intel, &table, 1000);
    assert_eq!(intel.history(1).len(), 1);

    table.remove_process(1);
    refresh(&mut intel, &table, 1001);
    assert_eq!(intel.history(1).len(), 1);

    refresh(&mut intel, &table, 1002);
    assert_eq!(intel.history(1).len(), 0);
}

#[test]
fn refresh_populates_current_and_emits_started_event() {
    let mut table = Table::default();
    let mut intel = ProcessIntelligence::new();
    table.set_process(snap(1, 0, 100, 0, 1000));

    refresh(&mut intel, &table, 1000);

    assert!(intel.process(1).is_some());
    let events = intel.timeline(1);
    assert_eq!(events.len(), 1);
    assert!(matches!(events[0].kind, TimelineEventKind::Started));
}

#[test]
fn refresh_computes_cpu_percent_from_tick_delta() {
    let mut table = Table::default();
    let mut intel = ProcessIntelligence::new();
    table.set_process(snap(1, 0, 100, 0, 1000));
    refresh(&mut intel, &table, 1000);

    // 100 ticks over 1 second at 100 ticks per second is one full core:
    // 100%, or 10000 hundredths of a percent.
    table.set_process(snap(1, 0, 100, 100, 1000));
    refresh(&mut intel, &table, 1001);

    let cpu_percent_centi = intel.process(1).unwrap().cpu.percent_centi;
    assert_eq!(cpu_percent_centi, 10000);
}

#[test]
fn refresh_detects_exit_and_new_child() {
    let mut table = Table::default();
    let mut intel = ProcessIntelligence::new();
    table.set_process(snap(1, 0, 100, 0, 1000));
    refresh(&mut intel, &table, 1000);

    table.set_process(snap(2, 1, 200, 0, 500));
    refresh(&mut intel, &table, 1001);
    let child_events = intel.timeline(1);
    assert!(child_events
        .iter()
        .any(|e| matches!(e.kind, TimelineEventKind::NewChild { child_pid: 2 })));

    table.remove_process(2);
    refresh(&mut intel, &table, 1002);
    let exit_events = intel.timeline(2);
    assert!(exit_events
        .iter()
        .any(|e| matches!(e.kind, TimelineEventKind::Exited { .. })));
    assert!(intel.process(2).is_none());
}

#[test]
fn refresh_flags_sustained_memory_growth_over_window() {
    let mut table = Table::default();
    let mut intel = ProcessIntelligence::new();
    table.set_process(snap(1, 0, 100, 0, 1_000_000));
    refresh(&mut intel, &table, 0);

    table.set_process(snap(1, 0, 100, 0, 1_700_000));
    refresh(&mut intel, &table, DEFAULT_GROWTH_WINDOW_SECS);

    let events = intel.timeline(1);
    assert!(events.iter().any(|e| matches!(
        e.kind,
        TimelineEventKind::MemoryGrowthThresholdCrossed { .. }
    )));
}

#[test]
fn refresh_detects_new_connection() {
    let mut table = Table::default();
    let mut intel = ProcessIntelligence::new();
    table.set_process(snap(1, 0, 100, 0, 1000));
    refresh(&mut intel, &table, 1000);

    table.set_connections(
        1,
        vec![NetworkConnection {
            protocol: Protocol::Tcp,
            local_addr: "127.0.0.1:9000".into(),
            remote_addr: "10.0.0.5:443".into(),
            state: ConnectionState::Established,
            inode: 42,
        }],
    );
    refresh(&mut intel, &table, 1001);

    let events = intel.timeline(1);
    assert!(events.iter().any(|e| matches!(
        &e.kind,
        TimelineEventKind::NewConnection { remote_addr } if remote_addr == "10.0.0.5:443"
    )));

    refresh(&mut intel, &table, 1002);
    let new_connection_count = intel
        .timeline(1)
        .iter()
        .filter(|e| matches!(e.kind, TimelineEventKind::NewConnection { .. }))
        .count();
    assert_eq!(new_connection_count, 1);
}

#[test]
fn tree_and_family_rollup_reflect_current_snapshot() {
    let mut table = Table::default();
    let mut intel = ProcessIntelligence::new();
    table.set_process(snap(1, 0, 100, 0, 1000));
    table.set_process(snap(2, 1, 200, 0, 2000));
    refresh(&mut intel, &table, 1000);

    let rollup = intel.family_rollup(1).expect("pid 1 exists");
    assert_eq!(rollup.process_count, 2);
    assert_eq!(rollup.rss, 3000);
}

#[test]
fn history_survives_pid_reuse_as_distinct_keys() {
    let mut table = Table::default();
    let mut intel = ProcessIntelligence::new();
    table.set_process(snap(1, 0, 100, 0, 1000));
    refresh(&mut intel, &table, 1000);
    table.remove_process(1);
    refresh(&mut intel, &table, 1001);

    table.set_process(snap(1, 0, 999, 0, 5000));
    refresh(&mut intel, &table, 1002);

    let started_events: Vec<_> = intel
        .timeline(1)
        .into_iter()
        .filter(|e| matches!(e.kind, TimelineEventKind::Started))
        .collect();
    assert_eq!(started_events.len(), 2);
    assert_eq!(intel.history(1).len(), 1);
}

#[test]
fn event_descriptions_name_the_process() {
    let mut table = Table::default();
    let mut intel = ProcessIntelligence::new();
    table.set_process(snap(1, 0, 100, 0, 1_000_000));
    refresh(&mut intel, &table, 0);
    table.set_process(snap(2, 1, 200, 0, 10));
    table.set_process(snap(1, 0, 100, 0, 1_700_000));
    refresh(&mut intel, &table, DEFAULT_GROWTH_WINDOW_SECS);
    table.remove_process(2);
    refresh(&mut intel, &table, DEFAULT_GROWTH_WINDOW_SECS + 1);

    let descriptions: Vec<String> = intel.timeline(1).into_iter().map(|e| e.description).collect();
    assert_eq!(
        descriptions,
        vec![
            "proc-1 (1) started".to_string(),
            "proc-1 (1) RSS grew 70.0% over the last 60m".to_string(),
            "new child process 2 (proc-2)".to_string(),
            "proc-1 (1) RSS grew 70.0% over the last 60m".to_string(),
        ]
    );
    let child: Vec<String> = intel.timeline(2).into_iter().map(|e| e.description).collect();
    assert_eq!(child, vec!["proc-2 (2) started".to_string(), "process 2 exited".to_string()]);
}

#[test]
fn growth_below_threshold_or_window_is_not_flagged() {
    let mut table = Table::default();
    let mut intel = ProcessIntelligence::new();
    table.set_process(snap(1, 0, 100, 0, 1_000_000));
    refresh(&mut intel, &table, 0);
    // Past the window, but only 49.9% growth.
    table.set_process(snap(1, 0, 100, 0, 1_499_000));
    refresh(&mut intel, &table, DEFAULT_GROWTH_WINDOW_SECS);
    // The baseline is the latest sample at least a window old, the first
    // one: exactly the threshold, 50%, is flagged.
    table.set_process(snap(1, 0, 100, 0, 1_500_000));
    refresh(&mut intel, &table, DEFAULT_GROWTH_WINDOW_SECS + 1);
    let growth: Vec<_> = intel
        .timeline(1)
        .into_iter()
        .filter(|e| matches!(e.kind, TimelineEventKind::MemoryGrowthThresholdCrossed { .. }))
        .collect();
    assert_eq!(growth.len(), 1);
    assert_eq!(growth[0].at, DEFAULT_GROWTH_WINDOW_SECS + 1);
    assert!(matches!(
        growth[0].kind,
        TimelineEventKind::MemoryGrowthThresholdCrossed { percent_growth_centi: 5000, window_secs: 3600 }
    ));
}

#[test]
fn history_is_capped_at_the_history_capacity() {
    let mut table = Table::default();
    let mut intel = ProcessIntelligence::new();
    table.set_process(snap(1, 0, 100, 0, 1000));
    for t in 0..130 {
        refresh(&mut intel, &table, t);
    }
    let history = intel.history(1);
    assert_eq!(history.len(), 120);
    assert_eq!(history[0].0, 10);
    assert_eq!(history[119].0, 129);
}

#[test]
fn timeline_is_capped_at_the_timeline_capacity() {
    let mut table = Table::default();
    let mut intel = ProcessIntelligence::new();
    // Each tick starts one new run of pid 1 and exits the previous one.
    for t in 0..600 {
        table.set_process(snap(1, 0, t as u64, 0, 1000));
        refresh(&mut intel, &table, t);
    }
    let events = intel.timeline(1);
    assert_eq!(events.len(), 1000);
    assert_eq!(intel.events_at(599).len(), 2);
}

#[test]
fn cpu_percent_is_zero_when_no_time_has_passed() {
    let mut table = Table::default();
    let mut intel = ProcessIntelligence::new();
    table.set_process(snap(1, 0, 100, 0, 1000));
    refresh(&mut intel, &table, 1000);
    table.set_process(snap(1, 0, 100, 500, 1000));
    refresh(&mut intel, &table, 1000);
    assert_eq!(intel.process(1).unwrap().cpu.percent_centi, 0);
    // Half a core over two seconds.
    table.set_process(snap(1, 0, 100, 600, 1000));
    refresh(&mut intel, &table, 1002);
    assert_eq!(intel.process(1).unwrap().cpu.percent_centi, 5000);
}

#[test]
fn unreadable_connections_report_nothing_and_forget_nothing() {
    let mut intel = ProcessIntelligence::new();
    let conn = NetworkConnection {
        protocol: Protocol::Tcp,
        local_addr: "127.0.0.1:1".into(),
        remote_addr: "10.0.0.1:443".into(),
        state: ConnectionState::Established,
        inode: 1,
    };
    let with = |conns: Option<Vec<NetworkConnection>>| {
        vec![ProcessReading {
            snapshot: snap(1, 0, 100, 0, 1000),
            connections: conns,
        }]
    };
    intel.refresh_at(1, with(Some(vec![conn.clone(), conn.clone()])));
    intel.refresh_at(2, with(None));
    intel.refresh_at(3, with(Some(vec![conn.clone()])));
    let count = intel
        .timeline(1)
        .iter()
        .filter(|e| matches!(e.kind, TimelineEventKind::NewConnection { .. }))
        .count();
    assert_eq!(count, 1);
}

#[test]
fn failed_reads_are_skipped_and_repeated_pids_keep_their_first_read() {
    let reads = vec![
        ProcessRead { snapshot: Some(snap(1, 0, 100, 5, 1000)), connections: None },
        ProcessRead { snapshot: None, connections: None },
        ProcessRead { snapshot: Some(snap(2, 1, 200, 0, 2000)), connections: Some(vec![]) },
        ProcessRead { snapshot: Some(snap(1, 0, 100, 9, 3000)), connections: None },
    ];
    let readings = usable_readings(reads);
    assert_eq!(readings.len(), 2);
    assert_eq!(readings[0].snapshot.pid, 1);
    assert_eq!(readings[0].snapshot.memory.rss, 1000);
    assert_eq!(readings[1].snapshot.pid, 2);
    assert!(readings[1].connections.is_some());
}

#[test]
fn a_refresh_from_reads_makes_exactly_the_read_pids_current() {
    let mut intel = ProcessIntelligence::new();
    let reads = vec![
        ProcessRead { snapshot: Some(snap(3, 0, 100, 0, 1000)), connections: None },
        ProcessRead { snapshot: None, connections: None },
        ProcessRead { snapshot: Some(snap(4, 3, 100, 0, 1000)), connections: None },
    ];
    intel.refresh_reads(1000, Some(reads));
    assert!(intel.process(3).is_some());
    assert!(intel.process(4).is_some());
    assert!(intel.process(5).is_none());
}

#[test]
fn a_tick_whose_listing_failed_still_drops_the_runs_that_exited_before_it() {
    let mut table = Table::default();
    let mut intel = ProcessIntelligence::new();
    table.set_process(snap(1, 0, 100, 0, 1000));
    table.set_process(snap(2, 0, 100, 0, 1000));
    refresh(&mut intel, &table, 1000);
    table.remove_process(1);
    refresh(&mut intel, &table, 1005);
    assert_eq!(intel.history(1).len(), 1);
    intel.refresh_reads(1010, None);
    assert!(intel.history(1).is_empty());
    assert!(intel.process(2).is_some());
    assert_eq!(intel.history(2).len(), 2);
}
