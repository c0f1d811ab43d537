use sher_pe::cpu::CpuStats;
use sher_pe::evidence::{Confidence, Finding, Severity};
use sher_pe::memory::MemoryBreakdown;
use sher_pe::network::ConnectionState;
use sher_pe::process::ProcessState;
use sher_pe::process_control::Signal;
use sher_pe::system::SystemMemory;

#[test]
fn confidence_orders_from_weakest_to_strongest() {
    assert!(Confidence::Unknown < Confidence::Likely);
    assert!(Confidence::Likely < Confidence::Correlated);
    assert!(Confidence::Correlated < Confidence::Observed);
}

#[test]
fn finding_new_allows_unknown_without_evidence() {
    let finding = Finding::new(
        Severity::Info,
        "title",
        "narrative",
        Confidence::Unknown,
        vec![],
    );
    assert_eq!(finding.confidence, Confidence::Unknown);
}

#[test]
fn is_detailed_false_for_statm_fallback() {
    let mem = MemoryBreakdown {
        rss: 1_000_000,
        vsz: 2_000_000,
        swap: 0,
        ..Default::default()
    };
    assert!(!mem.is_detailed());
}

#[test]
fn is_detailed_true_when_smaps_rollup_present() {
    let mem = MemoryBreakdown {
        rss: 1_000_000,
        anonymous: 800_000,
        file_backed: 200_000,
        ..Default::default()
    };
    assert!(mem.is_detailed());
}

#[test]
fn connection_state_from_proc_hex_covers_common_values() {
    assert_eq!(
        ConnectionState::from_proc_hex(0x01),
        ConnectionState::Established
    );
    assert_eq!(
        ConnectionState::from_proc_hex(0x0A),
        ConnectionState::Listen
    );
    assert_eq!(
        ConnectionState::from_proc_hex(0xFF),
        ConnectionState::Unknown
    );
}

#[test]
fn state_from_proc_char_covers_common_codes() {
    assert_eq!(ProcessState::from_proc_char('R'), ProcessState::Running);
    assert_eq!(ProcessState::from_proc_char('S'), ProcessState::Sleeping);
    assert_eq!(ProcessState::from_proc_char('Z'), ProcessState::Zombie);
    assert_eq!(
        ProcessState::from_proc_char('?'),
        ProcessState::Unknown('?')
    );
}

#[test]
fn kill_and_stop_are_uncatchable_others_are_not() {
    assert!(Signal::Kill.is_uncatchable());
    assert!(Signal::Stop.is_uncatchable());
    assert!(!Signal::Term.is_uncatchable());
    assert!(!Signal::Hup.is_uncatchable());
}

#[test]
fn name_matches_posix_signal_names() {
    assert_eq!(Signal::Term.name(), "SIGTERM");
    assert_eq!(Signal::Kill.name(), "SIGKILL");
    assert_eq!(Signal::Cont.name(), "SIGCONT");
}

#[test]
fn system_memory_used_and_swap_used() {
    let mem = SystemMemory {
        total: 1000,
        free: 300,
        available: 600,
        buffers: 50,
        cached: 200,
        swap_total: 500,
        swap_free: 500,
    };
    assert_eq!(mem.used(), 700);
    assert_eq!(mem.swap_used(), 0);
}

#[test]
fn total_ticks_sums_user_and_system() {
    let stats = CpuStats {
        utime_ticks: 100,
        stime_ticks: 50,
        ..Default::default()
    };
    assert_eq!(stats.total_ticks(), 150);
}

#[test]
fn state_from_proc_char_maps_every_documented_code() {
    assert_eq!(ProcessState::from_proc_char('D'), ProcessState::DiskSleep);
    assert_eq!(ProcessState::from_proc_char('T'), ProcessState::Stopped);
    assert_eq!(ProcessState::from_proc_char('t'), ProcessState::Stopped);
    assert_eq!(ProcessState::from_proc_char('X'), ProcessState::Dead);
    assert_eq!(ProcessState::from_proc_char('x'), ProcessState::Dead);
    assert_eq!(ProcessState::from_proc_char('I'), ProcessState::Idle);
}

#[test]
fn connection_state_from_proc_hex_maps_every_tcp_state() {
    let expected = [
        ConnectionState::Established,
        ConnectionState::SynSent,
        ConnectionState::SynRecv,
        ConnectionState::FinWait1,
        ConnectionState::FinWait2,
        ConnectionState::TimeWait,
        ConnectionState::Close,
        ConnectionState::CloseWait,
        ConnectionState::LastAck,
        ConnectionState::Listen,
        ConnectionState::Closing,
    ];
    for (code, state) in (1u8..=11).zip(expected) {
        assert_eq!(ConnectionState::from_proc_hex(code), state);
    }
    assert_eq!(ConnectionState::from_proc_hex(0x00), ConnectionState::Unknown);
    assert_eq!(ConnectionState::from_proc_hex(0x0C), ConnectionState::Unknown);
}

#[test]
fn system_memory_saturates_at_zero() {
    let mem = SystemMemory {
        total: 100,
        free: 300,
        swap_total: 500,
        swap_free: 200,
        ..Default::default()
    };
    assert_eq!(mem.used(), 0);
    assert_eq!(mem.swap_used(), 300);
}

#[test]
fn every_signal_has_its_posix_name() {
    assert_eq!(Signal::Hup.name(), "SIGHUP");
    assert_eq!(Signal::Int.name(), "SIGINT");
    assert_eq!(Signal::Quit.name(), "SIGQUIT");
    assert_eq!(Signal::Usr1.name(), "SIGUSR1");
    assert_eq!(Signal::Usr2.name(), "SIGUSR2");
    assert_eq!(Signal::Stop.name(), "SIGSTOP");
    assert!(!Signal::Cont.is_uncatchable());
}
