use sher_pe::chronology::chronology_lines;
use sher_pe::control::{confirms, kill_prompt, signal_confirmation};
use sher_pe::log_entry::LogEntry;
use sher_pe::intelligence::{ProcessIntelligence, ProcessReading};
use sher_pe::panels::{all_tabs, needs_recompute, update_cached_finding, CachedFinding, DetailTab};
use sher_pe::process::{ProcessSnapshot, ProcessState};
use sher_pe::process_control::Signal;
use sher_pe::sampler::{retention_secs, tick_interval_secs, PruneSchedule, PRUNE_EVERY_SECS};
use sher_pe::system::uptime_breakdown;
use sher_pe::timeline::{TimelineEvent, TimelineEventKind};
use sher_pe::investigation::not_found;

#[test]
fn confirmation_accepts_only_y_and_yes() {
    assert!(confirms("y"));
    assert!(confirms("Y\n"));
    assert!(confirms("  yes  "));
    assert!(confirms("YES"));
    assert!(!confirms(""));
    assert!(!confirms("n"));
    assert!(!confirms("yep"));
    assert!(!confirms("y e s"));
}

#[test]
fn kill_prompt_warns_about_uncatchable_signals() {
    assert_eq!(
        kill_prompt(Signal::Term, "nginx", 42),
        "Send SIGTERM to nginx (pid 42)? [y/N] "
    );
    assert_eq!(
        kill_prompt(Signal::Kill, "nginx", 42),
        "Send SIGKILL to nginx (pid 42)? This cannot be caught or ignored by the process. [y/N] "
    );
    assert_eq!(
        signal_confirmation(Signal::Stop, 7),
        "Send SIGSTOP to pid 7? This cannot be caught or ignored by the process."
    );
    assert_eq!(signal_confirmation(Signal::Hup, 7), "Send SIGHUP to pid 7?");
}

#[test]
fn uptime_breaks_down_into_days_hours_minutes() {
    assert_eq!(uptime_breakdown(0), (0, 0, 0));
    assert_eq!(uptime_breakdown(59), (0, 0, 0));
    assert_eq!(uptime_breakdown(90_061), (1, 1, 1));
    assert_eq!(uptime_breakdown(2 * 86_400 + 23 * 3_600 + 59 * 60 + 59), (2, 23, 59));
}

#[test]
fn sampler_schedule() {
    assert_eq!(tick_interval_secs(0), 1);
    assert_eq!(tick_interval_secs(5), 5);
    assert_eq!(retention_secs(0), 86_400);
    assert_eq!(retention_secs(7), 7 * 86_400);
    let mut schedule = PruneSchedule::new(1000);
    assert_eq!(schedule.tick(1000 + PRUNE_EVERY_SECS - 1, 86_400), None);
    assert_eq!(schedule.last_prune, 1000);
    assert_eq!(schedule.tick(1000 + PRUNE_EVERY_SECS, 86_400), Some(1000 + PRUNE_EVERY_SECS - 86_400));
    assert_eq!(schedule.last_prune, 1000 + PRUNE_EVERY_SECS);
    assert_eq!(schedule.tick(1000 + PRUNE_EVERY_SECS + 1, 86_400), None);
}

#[test]
fn detail_tabs_and_their_captions() {
    let labels: Vec<&str> = all_tabs().into_iter().map(|t| t.label()).collect();
    assert_eq!(
        labels,
        vec!["Overview", "Memory", "CPU", "Threads", "Files", "Network", "Disk I/O", "Security", "Timeline"]
    );
    assert!(DetailTab::Cpu.has_why());
    assert!(DetailTab::Disk.has_why());
    assert!(!DetailTab::Timeline.has_why());
}

#[test]
fn cached_finding_is_reused_only_for_the_same_pid_and_tab() {
    assert!(needs_recompute(&None, 1, DetailTab::Cpu));
    let cached = Some(CachedFinding { pid: 1, tab: DetailTab::Cpu, finding: not_found(1) });
    assert!(!needs_recompute(&cached, 1, DetailTab::Cpu));
    assert!(needs_recompute(&cached, 2, DetailTab::Cpu));
    assert!(needs_recompute(&cached, 1, DetailTab::Memory));
}

fn event(at: i64, description: &str) -> TimelineEvent {
    TimelineEvent {
        pid: 1,
        at,
        kind: TimelineEventKind::Started,
        description: description.to_string(),
    }
}

fn log(at_us: i64, message: &str) -> LogEntry {
    LogEntry {
        at_us,
        message: message.to_string(),
        priority: None,
        pid: None,
        identifier: None,
    }
}

#[test]
fn chronology_merges_events_and_journal_by_time() {
    let events = vec![event(10, "started"), event(5, "earlier event")];
    let journal = vec![log(10_000_000, "same second"), log(7_500_000, "log at 7.5s")];
    assert_eq!(
        chronology_lines(1, &events, &journal),
        vec![
            "[5] EVENT  earlier event".to_string(),
            "[7] LOG    log at 7.5s".to_string(),
            "[10] EVENT  started".to_string(),
            "[10] LOG    same second".to_string(),
        ]
    );
    assert_eq!(
        chronology_lines(3, &vec![], &vec![]),
        vec!["(no recorded lifecycle events or journal entries for pid 3 yet)".to_string()]
    );
    assert_eq!(chronology_lines(3, &vec![], &vec![log(-1_500_000, "before")]), vec!["[-1] LOG    before".to_string()]);
}

#[test]
fn cached_finding_is_worked_out_once_per_pid_and_tab() {
    let snapshot = ProcessSnapshot {
        pid: 4,
        ppid: 0,
        name: "worker".to_string(),
        cmdline: vec![],
        exe: None,
        state: ProcessState::Running,
        uid: 0,
        gid: 0,
        start_time: 1,
        cpu: Default::default(),
        memory: Default::default(),
        thread_count: 1,
        open_file_count: 0,
        cgroup: None,
    };
    let mut intel = ProcessIntelligence::new();
    intel.refresh_at(10, vec![ProcessReading { snapshot, connections: None }]);

    let mut cache = None;
    update_cached_finding(&mut cache, &intel, 4, DetailTab::Network, &vec![], &vec![], None, 10);
    let first = cache.as_ref().unwrap();
    assert_eq!(first.tab, DetailTab::Network);
    assert_eq!(first.finding.narrative, "worker (pid 4) has no open network connections");

    // Asking again for the same tab keeps what was worked out, even with
    // another collection time.
    update_cached_finding(&mut cache, &intel, 4, DetailTab::Network, &vec![], &vec![], None, 99);
    assert_eq!(cache.as_ref().unwrap().finding.evidence[0].collected_at, 10);

    update_cached_finding(&mut cache, &intel, 4, DetailTab::Disk, &vec![], &vec![], None, 11);
    assert_eq!(cache.as_ref().unwrap().tab, DetailTab::Disk);
    assert_eq!(cache.as_ref().unwrap().finding.title, "Disk I/O");
}

#[test]
fn trimming_removes_unicode_whitespace_at_both_ends_only() {
    assert_eq!(sher_pe::text::trim("\u{3000}\t y es \u{85}\n"), "y es");
    assert_eq!(sher_pe::text::trim(" \u{2009} "), "");
    assert_eq!(sher_pe::text::trim("\u{200B}y"), "\u{200B}y");
    assert!(confirms("\u{A0}YES\u{2028}"));
}
