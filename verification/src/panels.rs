//! The detail tabs of the desktop view of one process, and when the "why"
//! finding shown for a tab has to be worked out again.

use vstd::prelude::*;

use crate::evidence::{Finding, FindingView};
use crate::intelligence::ProcessIntelligence;
use crate::investigation::{
    ticks_sum, why_cpu, why_cpu_view, why_disk, why_disk_view, why_memory, why_memory_view,
    why_network, why_network_view, window_fits,
};
use crate::io::DiskIoStats;
use crate::network::NetworkConnection;
use crate::thread::ThreadSnapshot;
use crate::Pid;

verus! {

/// One tab of the per-process detail view.
#[derive(Debug, Clone, Copy, PartialEq, Eq, Structural)]
pub enum DetailTab {
    Overview,
    Memory,
    Cpu,
    Threads,
    Files,
    Network,
    Disk,
    Security,
    Timeline,
}

/// The caption of a tab.
pub open spec fn tab_label(tab: DetailTab) -> Seq<char> {
    match tab {
        DetailTab::Overview => "Overview"@,
        DetailTab::Memory => "Memory"@,
        DetailTab::Cpu => "CPU"@,
        DetailTab::Threads => "Threads"@,
        DetailTab::Files => "Files"@,
        DetailTab::Network => "Network"@,
        DetailTab::Disk => "Disk I/O"@,
        DetailTab::Timeline => "Timeline"@,
        DetailTab::Security => "Security"@,
    }
}

impl DetailTab {
    /// The caption of this tab.
    pub fn label(self) -> (l: &'static str)
        ensures
            l@ == tab_label(self),
    {
        match self {
            DetailTab::Overview => "Overview",
            DetailTab::Memory => "Memory",
            DetailTab::Cpu => "CPU",
            DetailTab::Threads => "Threads",
            DetailTab::Files => "Files",
            DetailTab::Network => "Network",
            DetailTab::Disk => "Disk I/O",
            DetailTab::Timeline => "Timeline",
            DetailTab::Security => "Security",
        }
    }

    /// Whether the tab offers a "why" finding: the CPU, memory, network
    /// and disk tabs do.
    pub fn has_why(self) -> (b: bool)
        ensures
            b == (self == DetailTab::Cpu || self == DetailTab::Memory || self == DetailTab::Network
                || self == DetailTab::Disk),
    {
        match self {
            DetailTab::Cpu | DetailTab::Memory | DetailTab::Network | DetailTab::Disk => true,
            _ => false,
        }
    }
}

/// Every tab, in display order.
pub fn all_tabs() -> (v: Vec<DetailTab>)
    ensures
        v@ == seq![
            DetailTab::Overview,
            DetailTab::Memory,
            DetailTab::Cpu,
            DetailTab::Threads,
            DetailTab::Files,
            DetailTab::Network,
            DetailTab::Disk,
            DetailTab::Security,
            DetailTab::Timeline,
        ],
{
    let v = vec![
        DetailTab::Overview,
        DetailTab::Memory,
        DetailTab::Cpu,
        DetailTab::Threads,
        DetailTab::Files,
        DetailTab::Network,
        DetailTab::Disk,
        DetailTab::Security,
        DetailTab::Timeline,
    ];
    assert(v@ =~= seq![
        DetailTab::Overview,
        DetailTab::Memory,
        DetailTab::Cpu,
        DetailTab::Threads,
        DetailTab::Files,
        DetailTab::Network,
        DetailTab::Disk,
        DetailTab::Security,
        DetailTab::Timeline,
    ]);
    v
}

/// The last finding worked out, for one tab of one process. It stays shown
/// until a finding for another tab or process is asked for.
pub struct CachedFinding {
    pub pid: Pid,
    pub tab: DetailTab,
    pub finding: Finding,
}

/// Nothing is cached, or what is cached is for another process or tab.
pub open spec fn needs_recompute_spec(cached: Option<CachedFinding>, pid: Pid, tab: DetailTab) -> bool {
    match cached {
        Some(c) => c.pid != pid || c.tab != tab,
        None => true,
    }
}

/// Whether the finding for `tab` of `pid` has to be worked out: nothing is
/// cached, or what is cached is for another process or tab.
pub fn needs_recompute(cached: &Option<CachedFinding>, pid: Pid, tab: DetailTab) -> (b: bool)
    ensures
        b == needs_recompute_spec(*cached, pid, tab),
{
    match cached {
        Some(c) => c.pid != pid || c.tab != tab,
        None => true,
    }
}

/// The finding the "why" button of `tab` asks for: the CPU, memory,
/// network or disk rule, given the live readings it needs.
pub open spec fn tab_finding(
    intel: crate::intelligence::IntelModel,
    pid: Pid,
    tab: DetailTab,
    threads: Seq<ThreadSnapshot>,
    connections: Seq<NetworkConnection>,
    disk_io: Option<DiskIoStats>,
    now: i64,
) -> FindingView {
    match tab {
        DetailTab::Cpu => why_cpu_view(intel, pid, threads, now),
        DetailTab::Memory => why_memory_view(intel, pid, now),
        DetailTab::Network => why_network_view(intel, pid, connections, now),
        _ => why_disk_view(intel, pid, disk_io, now),
    }
}

/// Makes `cache` hold the finding for `tab` of `pid`: kept as it is when
/// it already holds one for them, worked out afresh (see `tab_finding`)
/// otherwise, which only the tabs with a "why" button ask for.
pub fn update_cached_finding(
    cache: &mut Option<CachedFinding>,
    intel: &ProcessIntelligence,
    pid: Pid,
    tab: DetailTab,
    threads: &Vec<ThreadSnapshot>,
    connections: &Vec<NetworkConnection>,
    disk_io: Option<DiskIoStats>,
    now: i64,
)
    requires
        needs_recompute_spec(*old(cache), pid, tab) ==> (tab == DetailTab::Cpu || tab == DetailTab::Memory
            || tab == DetailTab::Network || tab == DetailTab::Disk),
        intel.wf(),
        needs_recompute_spec(*old(cache), pid, tab) && tab == DetailTab::Cpu ==> ticks_sum(threads@) <= u64::MAX,
        needs_recompute_spec(*old(cache), pid, tab) && tab == DetailTab::Memory ==> window_fits(intel@, pid),
    ensures
        !needs_recompute_spec(*old(cache), pid, tab) ==> *final(cache) == *old(cache),
        needs_recompute_spec(*old(cache), pid, tab) ==> (*final(cache) matches Some(c) && c.pid == pid && c.tab == tab
            && c.finding@ == tab_finding(intel@, pid, tab, threads@, connections@, disk_io, now)),
{
    if !needs_recompute(cache, pid, tab) {
        return;
    }
    let finding = match tab {
        DetailTab::Cpu => why_cpu(intel, pid, threads, now),
        DetailTab::Memory => why_memory(intel, pid, now),
        DetailTab::Network => why_network(intel, pid, connections, now),
        _ => why_disk(intel, pid, disk_io, now),
    };
    *cache = Some(CachedFinding { pid, tab, finding });
}

} // verus!
