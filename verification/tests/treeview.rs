use std::collections::HashSet;

use sher_pe::cpu::CpuStats;
use sher_pe::memory::MemoryBreakdown;
use sher_pe::process::{ProcessSnapshot, ProcessState};
use sher_pe::tree::ProcessTree;
use sher_pe::treeview::{flatten_tree, outline, pids_ascending, TreeRow};
use sher_pe::Pid;

fn snap(pid: Pid, ppid: Pid, name: &str) -> ProcessSnapshot {
    ProcessSnapshot {
        pid,
        ppid,
        name: name.to_string(),
        cmdline: vec![],
        exe: None,
        state: ProcessState::Running,
        uid: 1000,
        gid: 1000,
        start_time: 0,
        cpu: CpuStats::default(),
        memory: MemoryBreakdown::default(),
        thread_count: 1,
        open_file_count: 0,
        cgroup: None,
    }
}

/// 1 (init) -> 2 (sshd) -> 3 (bash) -> 4 (vim)
///          -> 5 (cron)
fn sample_tree() -> ProcessTree {
    ProcessTree::build(vec![
        snap(1, 0, "init"),
        snap(2, 1, "sshd"),
        snap(3, 2, "bash"),
        snap(4, 3, "vim"),
        snap(5, 1, "cron"),
    ])
}

#[test]
fn flatten_empty_tree_is_empty() {
    let tree = ProcessTree::default();
    assert_eq!(flatten_tree(&tree, &HashSet::new(), ""), vec![]);
}

#[test]
fn flatten_with_no_expansion_and_no_filter_shows_only_roots() {
    let tree = sample_tree();
    let rows = flatten_tree(&tree, &HashSet::new(), "");
    assert_eq!(
        rows,
        vec![TreeRow {
            pid: 1,
            depth: 0,
            has_children: true
        }]
    );
}

#[test]
fn flatten_reveals_children_of_expanded_nodes_only() {
    let tree = sample_tree();
    let expanded: HashSet<Pid> = HashSet::from([1]);
    let rows = flatten_tree(&tree, &expanded, "");
    assert_eq!(
        rows,
        vec![
            TreeRow {
                pid: 1,
                depth: 0,
                has_children: true
            },
            TreeRow {
                pid: 2,
                depth: 1,
                has_children: true
            },
            TreeRow {
                pid: 5,
                depth: 1,
                has_children: false
            },
        ]
    );
}

#[test]
fn flatten_expands_full_chain_when_all_ancestors_expanded() {
    let tree = sample_tree();
    let expanded: HashSet<Pid> = HashSet::from([1, 2, 3]);
    let rows = flatten_tree(&tree, &expanded, "");
    let pids: Vec<Pid> = rows.iter().map(|r| r.pid).collect();
    assert_eq!(pids, vec![1, 2, 3, 4, 5]);
}

#[test]
fn filter_matching_only_a_deep_descendant_reveals_its_whole_ancestor_chain() {
    let tree = sample_tree();
    let rows = flatten_tree(&tree, &HashSet::new(), "vim");
    let pids: Vec<Pid> = rows.iter().map(|r| r.pid).collect();
    assert_eq!(pids, vec![1, 2, 3, 4]);
}

#[test]
fn filter_excludes_siblings_that_do_not_match_and_have_no_matching_descendants() {
    let tree = sample_tree();
    let rows = flatten_tree(&tree, &HashSet::new(), "vim");
    assert!(!rows.iter().any(|r| r.pid == 5));
}

#[test]
fn filter_matching_nothing_yields_empty_rows() {
    let tree = sample_tree();
    let rows = flatten_tree(&tree, &HashSet::new(), "nonexistent-process-name");
    assert_eq!(rows, vec![]);
}

#[test]
fn filter_by_exact_pid_matches() {
    let tree = sample_tree();
    let rows = flatten_tree(&tree, &HashSet::new(), "5");
    let pids: Vec<Pid> = rows.iter().map(|r| r.pid).collect();
    assert_eq!(pids, vec![1, 5]);
}

#[test]
fn filter_is_case_insensitive() {
    let tree = sample_tree();
    let rows = flatten_tree(&tree, &HashSet::new(), "BASH");
    let pids: Vec<Pid> = rows.iter().map(|r| r.pid).collect();
    assert_eq!(pids, vec![1, 2, 3]);
}

#[test]
fn filter_is_trimmed_and_depths_follow_the_chain() {
    let tree = sample_tree();
    let rows = flatten_tree(&tree, &HashSet::new(), "  Vim\t");
    assert_eq!(
        rows,
        vec![
            TreeRow { pid: 1, depth: 0, has_children: true },
            TreeRow { pid: 2, depth: 1, has_children: true },
            TreeRow { pid: 3, depth: 2, has_children: true },
            TreeRow { pid: 4, depth: 3, has_children: false },
        ]
    );
}

#[test]
fn roots_and_children_come_in_ascending_pid_order() {
    let tree = ProcessTree::build(vec![
        snap(30, 0, "c"),
        snap(10, 0, "a"),
        snap(20, 0, "b"),
        snap(12, 10, "a2"),
        snap(11, 10, "a1"),
    ]);
    let expanded: HashSet<Pid> = HashSet::from([10]);
    let pids: Vec<Pid> = flatten_tree(&tree, &expanded, "").iter().map(|r| r.pid).collect();
    assert_eq!(pids, vec![10, 11, 12, 20, 30]);
}

#[test]
fn outline_shows_everything_below_the_start() {
    let tree = sample_tree();
    let all = outline(&tree, None).unwrap();
    let rows: Vec<(Pid, usize)> = all.iter().map(|r| (r.pid, r.depth)).collect();
    assert_eq!(rows, vec![(1, 0), (2, 1), (3, 2), (4, 3), (5, 1)]);
    let sub = outline(&tree, Some(3)).unwrap();
    let rows: Vec<(Pid, usize)> = sub.iter().map(|r| (r.pid, r.depth)).collect();
    assert_eq!(rows, vec![(3, 0), (4, 1)]);
    assert_eq!(outline(&tree, Some(99)), None);
}

#[test]
fn pids_ascending_lists_every_process_once_in_order() {
    let tree = ProcessTree::build(vec![snap(7, 0, "x"), snap(3, 7, "y"), snap(5, 0, "z")]);
    assert_eq!(pids_ascending(&tree), vec![3, 5, 7]);
}
