use sher_pe::cpu::CpuStats;
use sher_pe::memory::MemoryBreakdown;
use sher_pe::process::{ProcessSnapshot, ProcessState};
use sher_pe::tree::ProcessTree;
use sher_pe::Pid;

/// A snapshot with the given CPU utilization in hundredths of a percent.
fn snap(pid: Pid, ppid: Pid, rss: u64, cpu_percent_centi: u64) -> ProcessSnapshot {
    ProcessSnapshot {
        pid,
        ppid,
        name: format!("proc-{pid}"),
        cmdline: vec![],
        exe: None,
        state: ProcessState::Running,
        uid: 1000,
        gid: 1000,
        start_time: 0,
        cpu: CpuStats {
            percent_centi: cpu_percent_centi,
            ..Default::default()
        },
        memory: MemoryBreakdown {
            rss,
            ..Default::default()
        },
        thread_count: 1,
        open_file_count: 2,
        cgroup: None,
    }
}

#[test]
fn build_links_children_and_skips_absent_parents() {
    let tree = ProcessTree::build(vec![
        snap(1, 0, 1000, 100),
        snap(2, 1, 2000, 200),
        snap(3, 1, 3000, 300),
        snap(4, 2, 4000, 400),
    ]);

    assert_eq!(tree.roots(), vec![1]);
    let mut kids_of_1 = tree.children.get(&1).cloned().unwrap_or_default();
    kids_of_1.sort();
    assert_eq!(kids_of_1, vec![2, 3]);
    assert_eq!(tree.children.get(&2), Some(&vec![4]));
}

#[test]
fn family_includes_self_and_all_descendants() {
    let tree = ProcessTree::build(vec![
        snap(1, 0, 1000, 100),
        snap(2, 1, 2000, 200),
        snap(3, 1, 3000, 300),
        snap(4, 2, 4000, 400),
    ]);

    let mut family = tree.family(1);
    family.sort();
    assert_eq!(family, vec![1, 2, 3, 4]);
    assert_eq!(tree.family(4), vec![4]);
    assert_eq!(tree.family(999), Vec::<Pid>::new());
}

#[test]
fn aggregate_sums_family_resources() {
    let tree = ProcessTree::build(vec![
        snap(1, 0, 1000, 100),
        snap(2, 1, 2000, 200),
        snap(4, 2, 4000, 400),
    ]);

    let rollup = tree.aggregate(1).expect("pid 1 exists");
    assert_eq!(rollup.process_count, 3);
    assert_eq!(rollup.rss, 7000);
    assert_eq!(rollup.cpu_percent_centi, 700);
    assert_eq!(rollup.thread_count, 3);
    assert_eq!(rollup.open_file_count, 6);
}

#[test]
fn aggregate_returns_none_for_absent_pid() {
    let tree = ProcessTree::build(vec![snap(1, 0, 1000, 100)]);
    assert_eq!(tree.aggregate(999), None);
}

#[test]
fn build_keeps_the_last_snapshot_of_a_repeated_pid() {
    let tree = ProcessTree::build(vec![snap(1, 0, 1000, 100), snap(1, 0, 5000, 100)]);
    assert_eq!(tree.nodes.len(), 1);
    assert_eq!(tree.nodes[&1].memory.rss, 5000);
}

#[test]
fn a_process_that_is_its_own_parent_is_a_root_without_children() {
    let tree = ProcessTree::build(vec![snap(1, 1, 1000, 100), snap(2, 1, 1000, 100)]);
    assert_eq!(tree.roots(), vec![1]);
    assert_eq!(tree.children.get(&1), Some(&vec![2]));
    assert_eq!(tree.children.get(&2), None);
}

#[test]
fn family_is_breadth_first() {
    let tree = ProcessTree::build(vec![
        snap(1, 0, 1, 0),
        snap(2, 1, 1, 0),
        snap(3, 2, 1, 0),
        snap(4, 1, 1, 0),
    ]);
    let family = tree.family(1);
    assert_eq!(family[0], 1);
    // Both children of 1 come before the grandchild.
    let pos = |p: Pid| family.iter().position(|&x| x == p).unwrap();
    assert!(pos(2) < pos(3));
    assert!(pos(4) < pos(3));
    assert_eq!(family.len(), 4);
}

#[test]
fn aggregate_of_a_leaf_is_its_own_usage() {
    let tree = ProcessTree::build(vec![snap(1, 0, 1000, 150), snap(2, 1, 2000, 250)]);
    let rollup = tree.aggregate(2).unwrap();
    assert_eq!(rollup.process_count, 1);
    assert_eq!(rollup.rss, 2000);
    assert_eq!(rollup.cpu_percent_centi, 250);
    assert_eq!(rollup.open_file_count, 2);
}

#[test]
fn family_walks_breadth_first_in_child_list_order() {
    let mut tree = ProcessTree::build(vec![
        snap(1, 0, 1, 0),
        snap(2, 1, 1, 0),
        snap(3, 1, 1, 0),
        snap(4, 2, 1, 0),
        snap(5, 3, 1, 0),
        snap(6, 3, 1, 0),
    ]);
    tree.children.insert(1, vec![3, 2]);
    tree.children.insert(3, vec![6, 5]);
    assert_eq!(tree.family(1), vec![1, 3, 2, 6, 5, 4]);
    assert_eq!(tree.family(3), vec![3, 6, 5]);
}
