//! Flattening a process tree into the rows of an indented process list:
//! roots and children in ascending pid order, depth first, with collapsed
//! subtrees hidden unless a search filter forces the path to a match open.

use vstd::prelude::*;

use std::collections::HashSet;

use crate::process::ProcessSnapshot;
use crate::seqs::{lemma_same_members_same_sort, lemma_sorted_pids_elements, sorted_copy, sorted_pids};
use crate::text::{has_substring, lowercase_of, push_signed, signed_decimal, str_contains, to_lowercase, trim, trimmed};
use crate::tree::{is_child, is_child_path, is_root, ProcessTree};
use crate::Pid;

verus! {

broadcast use vstd::std_specs::hash::group_hash_axioms;

/// One row of the flattened, indent-ready process list.
#[derive(Debug, Clone, Copy, PartialEq, Eq, Structural)]
pub struct TreeRow {
    pub pid: Pid,
    pub depth: usize,
    pub has_children: bool,
}

/// The child list of `pid`, empty when it has none.
pub open spec fn kids_of(children: Map<Pid, Vec<Pid>>, pid: Pid) -> Seq<Pid> {
    if children.contains_key(pid) { children[pid]@ } else { Seq::empty() }
}

/// `pid` itself matches the (already trimmed and lowercased) filter: its
/// lowercased name contains it, or its decimal pid is exactly it.
pub open spec fn self_matches(nodes: Map<Pid, ProcessSnapshot>, pid: Pid, filter: Seq<char>) -> bool {
    nodes.contains_key(pid) && (has_substring(lowercase_of(nodes[pid].name@), filter)
        || signed_decimal(pid as int) == filter)
}

/// `pid` or one of its descendants, looked for down to `fuel` levels,
/// matches the filter; an empty filter matches everything.
pub open spec fn node_matches(
    nodes: Map<Pid, ProcessSnapshot>,
    children: Map<Pid, Vec<Pid>>,
    pid: Pid,
    filter: Seq<char>,
    fuel: nat,
) -> bool
    decreases fuel, 0nat,
{
    filter.len() == 0 || self_matches(nodes, pid, filter) || (fuel > 0 && any_matches(
        nodes,
        children,
        kids_of(children, pid),
        filter,
        (fuel - 1) as nat,
    ))
}

/// Some member of `kids` matches (see `node_matches`).
pub open spec fn any_matches(
    nodes: Map<Pid, ProcessSnapshot>,
    children: Map<Pid, Vec<Pid>>,
    kids: Seq<Pid>,
    filter: Seq<char>,
    fuel: nat,
) -> bool
    decreases fuel, kids.len() + 1,
{
    kids.len() > 0 && (any_matches(nodes, children, kids.drop_last(), filter, fuel) || node_matches(
        nodes,
        children,
        kids.last(),
        filter,
        fuel,
    ))
}

/// The rows of the subtree of `pid` at `depth`: nothing when the subtree
/// does not match the filter; otherwise `pid`'s row, followed — when the
/// filter is non-empty or `pid` is expanded, and `fuel` is left — by the
/// rows of its children in ascending pid order.
pub open spec fn node_rows(
    nodes: Map<Pid, ProcessSnapshot>,
    children: Map<Pid, Vec<Pid>>,
    expanded: Set<Pid>,
    pid: Pid,
    depth: nat,
    filter: Seq<char>,
    fuel: nat,
) -> Seq<TreeRow>
    decreases fuel, 0nat,
{
    if !node_matches(nodes, children, pid, filter, fuel) {
        Seq::empty()
    } else {
        let kids = sorted_pids(kids_of(children, pid));
        let row = TreeRow { pid, depth: depth as usize, has_children: kids.len() > 0 };
        if fuel > 0 && (filter.len() > 0 || expanded.contains(pid)) {
            seq![row] + list_rows(nodes, children, expanded, kids, depth + 1, filter, (fuel - 1) as nat)
        } else {
            seq![row]
        }
    }
}

/// The rows of the subtrees of `kids`, in order.
pub open spec fn list_rows(
    nodes: Map<Pid, ProcessSnapshot>,
    children: Map<Pid, Vec<Pid>>,
    expanded: Set<Pid>,
    kids: Seq<Pid>,
    depth: nat,
    filter: Seq<char>,
    fuel: nat,
) -> Seq<TreeRow>
    decreases fuel, kids.len() + 1,
{
    if kids.len() == 0 {
        Seq::empty()
    } else {
        list_rows(nodes, children, expanded, kids.drop_last(), depth, filter, fuel)
            + node_rows(nodes, children, expanded, kids.last(), depth, filter, fuel)
    }
}

/// The filter as it is matched: trimmed, then lowercased.
pub open spec fn normalized_filter(filter: Seq<char>) -> Seq<char> {
    lowercase_of(trimmed(filter))
}

/// A list of the roots of a node table, each once.
pub open spec fn lists_roots(nodes: Map<Pid, ProcessSnapshot>, s: Seq<Pid>) -> bool {
    s.no_duplicates() && forall|p: Pid| #[trigger] s.contains(p) <==> is_root(nodes, p)
}

/// The roots of a node table in ascending pid order.
pub open spec fn ordered_roots(nodes: Map<Pid, ProcessSnapshot>) -> Seq<Pid> {
    sorted_pids(choose|s: Seq<Pid>| lists_roots(nodes, s))
}

/// The rows `flatten_tree` produces: the subtrees of the roots in
/// ascending pid order, each looked into down to as many levels as the
/// tree has processes (which no chain of parent links in a process table
/// exceeds).
pub open spec fn tree_rows(tree: ProcessTree, expanded: Set<Pid>, filter: Seq<char>) -> Seq<TreeRow> {
    list_rows(
        tree.nodes@,
        tree.children@,
        expanded,
        ordered_roots(tree.nodes@),
        0,
        normalized_filter(filter),
        tree.nodes@.len(),
    )
}

proof fn lemma_any_matches_step(
    nodes: Map<Pid, ProcessSnapshot>,
    children: Map<Pid, Vec<Pid>>,
    kids: Seq<Pid>,
    filter: Seq<char>,
    fuel: nat,
    i: int,
)
    requires
        0 <= i < kids.len(),
    ensures
        any_matches(nodes, children, kids.take(i + 1), filter, fuel) == (any_matches(nodes, children, kids.take(i), filter, fuel)
            || node_matches(nodes, children, kids[i], filter, fuel)),
{
    assert(kids.take(i + 1).drop_last() =~= kids.take(i));
    assert(kids.take(i + 1).last() == kids[i]);
}

proof fn lemma_any_matches_member(
    nodes: Map<Pid, ProcessSnapshot>,
    children: Map<Pid, Vec<Pid>>,
    kids: Seq<Pid>,
    filter: Seq<char>,
    fuel: nat,
    j: int,
)
    requires
        0 <= j < kids.len(),
        node_matches(nodes, children, kids[j], filter, fuel),
    ensures
        any_matches(nodes, children, kids, filter, fuel),
    decreases kids.len(),
{
    if j < kids.len() - 1 {
        assert(kids.drop_last()[j] == kids[j]);
        lemma_any_matches_member(nodes, children, kids.drop_last(), filter, fuel, j);
    }
}

/// Whether the subtree of `pid` matches the filter (see `node_matches`).
fn subtree_matches(tree: &ProcessTree, pid: Pid, filter_lower: &String, fuel: usize) -> (b: bool)
    ensures
        b == node_matches(tree.nodes@, tree.children@, pid, filter_lower@, fuel as nat),
    decreases fuel,
{
    if filter_lower.as_str().is_empty() {
        return true;
    }
    let self_match = match tree.nodes.get(&pid) {
        Some(node) => {
            let name = to_lowercase(node.name.as_str());
            let mut id = String::new();
            push_signed(&mut id, pid as i64);
            str_contains(name.as_str(), filter_lower.as_str()) || id == *filter_lower
        },
        None => false,
    };
    if self_match {
        return true;
    }
    if fuel == 0 {
        return false;
    }
    let ghost nodes = tree.nodes@;
    let ghost ch = tree.children@;
    let ghost kids = kids_of(ch, pid);
    match tree.children.get(&pid) {
        Some(list) => {
            let mut i: usize = 0;
            while i < list.len()
                invariant
                    i <= list@.len(),
                    list@ == kids,
                    kids == kids_of(ch, pid),
                    fuel > 0,
                    nodes == tree.nodes@,
                    ch == tree.children@,
                    !any_matches(nodes, ch, kids.take(i as int), filter_lower@, (fuel - 1) as nat),
                decreases list@.len() - i,
            {
                proof { lemma_any_matches_step(nodes, ch, kids, filter_lower@, (fuel - 1) as nat, i as int); }
                if subtree_matches(tree, list[i], filter_lower, fuel - 1) {
                    proof { lemma_any_matches_member(nodes, ch, kids, filter_lower@, (fuel - 1) as nat, i as int); }
                    return true;
                }
                i += 1;
            }
            assert(kids.take(kids.len() as int) =~= kids);
            false
        },
        None => {
            assert(kids.len() == 0);
            false
        },
    }
}

proof fn lemma_list_rows_step(
    nodes: Map<Pid, ProcessSnapshot>,
    children: Map<Pid, Vec<Pid>>,
    expanded: Set<Pid>,
    kids: Seq<Pid>,
    depth: nat,
    filter: Seq<char>,
    fuel: nat,
    i: int,
)
    requires
        0 <= i < kids.len(),
    ensures
        list_rows(nodes, children, expanded, kids.take(i + 1), depth, filter, fuel) == list_rows(
            nodes,
            children,
            expanded,
            kids.take(i),
            depth,
            filter,
            fuel,
        ) + node_rows(nodes, children, expanded, kids[i], depth, filter, fuel),
{
    assert(kids.take(i + 1).drop_last() =~= kids.take(i));
    assert(kids.take(i + 1).last() == kids[i]);
}

/// Appends the rows of the subtree of `pid` at `depth` (see `node_rows`).
fn flatten_node(
    tree: &ProcessTree,
    pid: Pid,
    depth: usize,
    expanded: &HashSet<Pid>,
    filter_lower: &String,
    rows: &mut Vec<TreeRow>,
    fuel: usize,
)
    requires
        depth + fuel <= usize::MAX,
    ensures
        final(rows)@ == old(rows)@ + node_rows(
            tree.nodes@,
            tree.children@,
            expanded@,
            pid,
            depth as nat,
            filter_lower@,
            fuel as nat,
        ),
    decreases fuel,
{
    let ghost nodes = tree.nodes@;
    let ghost ch = tree.children@;
    let ghost want = node_rows(nodes, ch, expanded@, pid, depth as nat, filter_lower@, fuel as nat);
    if !subtree_matches(tree, pid, filter_lower, fuel) {
        assert(rows@ =~= old(rows)@ + want);
        return;
    }
    let empty: Vec<Pid> = Vec::new();
    let list = match tree.children.get(&pid) {
        Some(list) => list,
        None => &empty,
    };
    assert(list@ == kids_of(ch, pid));
    let kids = sorted_copy(list);
    let ghost ks = kids@;
    assert(ks == sorted_pids(kids_of(ch, pid)));
    rows.push(TreeRow { pid, depth, has_children: kids.len() > 0 });
    let ghost first = rows@;
    let force_expand_for_search = !filter_lower.as_str().is_empty();
    if fuel > 0 && (force_expand_for_search || expanded.contains(&pid)) {
        let mut i: usize = 0;
        while i < kids.len()
            invariant
                i <= ks.len(),
                ks == kids@,
                fuel > 0,
                depth + fuel <= usize::MAX,
                nodes == tree.nodes@,
                ch == tree.children@,
                rows@ == first + list_rows(nodes, ch, expanded@, ks.take(i as int), (depth + 1) as nat, filter_lower@, (fuel - 1) as nat),
            decreases ks.len() - i,
        {
            proof { lemma_list_rows_step(nodes, ch, expanded@, ks, (depth + 1) as nat, filter_lower@, (fuel - 1) as nat, i as int); }
            flatten_node(tree, kids[i], depth + 1, expanded, filter_lower, rows, fuel - 1);
            proof {
                assert(rows@ =~= first + list_rows(nodes, ch, expanded@, ks.take(i + 1), (depth + 1) as nat, filter_lower@, (fuel - 1) as nat));
            }
            i += 1;
        }
        assert(ks.take(ks.len() as int) =~= ks);
        assert(rows@ =~= old(rows)@ + want);
    } else {
        assert(rows@ =~= old(rows)@ + want);
    }
}

/// Flattens `tree` into display order: roots ascending by pid, children
/// ascending by pid, depth first. `expanded` hides the children of
/// collapsed nodes, but only while `filter` is empty; a non-empty filter
/// (trimmed, case-insensitive: a name containing it, or exactly the pid)
/// opens every path down to a match and drops every subtree without one,
/// so a search never hides what it found.
pub fn flatten_tree(tree: &ProcessTree, expanded: &HashSet<Pid>, filter: &str) -> (rows: Vec<TreeRow>)
    ensures
        rows@ == tree_rows(*tree, expanded@, filter@),
{
    let filter_lower = to_lowercase(trim(filter));
    let roots = tree.roots();
    let sorted = sorted_copy(&roots);
    proof {
        assert(lists_roots(tree.nodes@, roots@));
        let c = choose|s: Seq<Pid>| lists_roots(tree.nodes@, s);
        lemma_same_members_same_sort(roots@, c);
    }
    let ghost ks = sorted@;
    let fuel = tree.nodes.len();
    let mut rows: Vec<TreeRow> = Vec::new();
    let mut i: usize = 0;
    while i < sorted.len()
        invariant
            i <= ks.len(),
            ks == sorted@,
            fuel == tree.nodes@.len(),
            rows@ == list_rows(tree.nodes@, tree.children@, expanded@, ks.take(i as int), 0, filter_lower@, fuel as nat),
        decreases ks.len() - i,
    {
        proof { lemma_list_rows_step(tree.nodes@, tree.children@, expanded@, ks, 0, filter_lower@, fuel as nat, i as int); }
        flatten_node(tree, sorted[i], 0, expanded, &filter_lower, &mut rows, fuel);
        i += 1;
    }
    assert(ks.take(ks.len() as int) =~= ks);
    rows
}

/// A list of the pids of a node table, each once.
pub open spec fn lists_pids(nodes: Map<Pid, ProcessSnapshot>, s: Seq<Pid>) -> bool {
    s.no_duplicates() && forall|p: Pid| #[trigger] s.contains(p) <==> nodes.contains_key(p)
}

/// The pids of a node table in ascending order.
pub open spec fn ordered_pids(nodes: Map<Pid, ProcessSnapshot>) -> Seq<Pid> {
    sorted_pids(choose|s: Seq<Pid>| lists_pids(nodes, s))
}

/// The pids of the node table, each once, in the order it is walked.
fn node_pids(tree: &ProcessTree) -> (r: Vec<Pid>)
    ensures
        lists_pids(tree.nodes@, r@),
{
    let ghost keys = vstd::std_specs::iter::IteratorSpec::remaining(&vstd::std_specs::hash::spec_keys_iter(&tree.nodes)).unref();
    let mut out: Vec<Pid> = Vec::new();
    for k in it: tree.nodes.keys()
        invariant
            it.seq().unref() == keys,
            out@ == keys.take(it.index()),
    {
        assert(keys.take(it.index() + 1) =~= keys.take(it.index()).push(*k));
        out.push(*k);
    }
    proof {
        assert(keys.take(keys.len() as int) =~= keys);
        assert(keys.no_duplicates());
        assert(keys.to_set() == tree.nodes@.dom());
        assert forall|p: Pid| #[trigger] out@.contains(p) <==> tree.nodes@.contains_key(p) by {
            assert(keys.to_set().contains(p) <==> keys.contains(p));
        }
    }
    out
}

/// Every process of the tree in ascending pid order, as the flat process
/// list shows them.
pub fn pids_ascending(tree: &ProcessTree) -> (r: Vec<Pid>)
    ensures
        r@ == ordered_pids(tree.nodes@),
{
    let pids = node_pids(tree);
    let sorted = sorted_copy(&pids);
    proof {
        let c = choose|s: Seq<Pid>| lists_pids(tree.nodes@, s);
        lemma_same_members_same_sort(pids@, c);
    }
    sorted
}

/// The rows of the fully expanded outline below the pids of `start`, in
/// that order: every process with all its descendants, children in
/// ascending pid order.
pub open spec fn outline_rows(tree: ProcessTree, start: Seq<Pid>) -> Seq<TreeRow> {
    list_rows(tree.nodes@, tree.children@, tree.nodes@.dom(), start, 0, Seq::empty(), tree.nodes@.len())
}

/// The fully expanded outline the terminal tree view prints: below `root`
/// when one is given (`None` when it is not in the tree), else below every
/// root in ascending pid order.
pub fn outline(tree: &ProcessTree, root: Option<Pid>) -> (r: Option<Vec<TreeRow>>)
    ensures
        match root {
            Some(p) => if tree.nodes@.contains_key(p) {
                r matches Some(rows) && rows@ == outline_rows(*tree, seq![p])
            } else {
                r is None
            },
            None => r matches Some(rows) && rows@ == outline_rows(*tree, ordered_roots(tree.nodes@)),
        },
{
    let start: Vec<Pid> = match root {
        Some(p) => {
            if !tree.nodes.contains_key(&p) {
                return None;
            }
            let v = vec![p];
            assert(v@ =~= seq![p]);
            v
        },
        None => {
            let roots = tree.roots();
            let sorted = sorted_copy(&roots);
            proof {
                assert(lists_roots(tree.nodes@, roots@));
                let c = choose|s: Seq<Pid>| lists_roots(tree.nodes@, s);
                lemma_same_members_same_sort(roots@, c);
            }
            sorted
        },
    };
    let pids = node_pids(tree);
    let mut all: HashSet<Pid> = HashSet::new();
    let mut j: usize = 0;
    while j < pids.len()
        invariant
            j <= pids@.len(),
            all@ == pids@.take(j as int).to_set(),
        decreases pids@.len() - j,
    {
        proof {
            assert(pids@.take(j + 1) =~= pids@.take(j as int) + seq![pids@[j as int]]);
            Seq::lemma_to_set_insert_commutes(pids@.take(j as int), pids@[j as int]);
        }
        let ghost before = all@;
        all.insert(pids[j]);
        assert(all@ == before.insert(pids@[j as int]));
        j += 1;
    }
    proof {
        assert(pids@.take(pids@.len() as int) =~= pids@);
        assert forall|p: Pid| #[trigger] all@.contains(p) <==> tree.nodes@.dom().contains(p) by {
            assert(pids@.to_set().contains(p) <==> pids@.contains(p));
        }
        assert(all@ =~= tree.nodes@.dom());
    }
    let nothing = String::new();
    let ghost ks = start@;
    let fuel = tree.nodes.len();
    let mut rows: Vec<TreeRow> = Vec::new();
    let mut i: usize = 0;
    while i < start.len()
        invariant
            i <= ks.len(),
            ks == start@,
            fuel == tree.nodes@.len(),
            all@ == tree.nodes@.dom(),
            nothing@ == Seq::<char>::empty(),
            rows@ == list_rows(tree.nodes@, tree.children@, all@, ks.take(i as int), 0, nothing@, fuel as nat),
        decreases ks.len() - i,
    {
        proof { lemma_list_rows_step(tree.nodes@, tree.children@, all@, ks, 0, nothing@, fuel as nat, i as int); }
        flatten_node(tree, start[i], 0, &all, &nothing, &mut rows, fuel);
        i += 1;
    }
    assert(ks.take(ks.len() as int) =~= ks);
    Some(rows)
}

/// Every row of the subtree of a member of `kids` is a row of the list.
proof fn lemma_list_rows_contains(
    nodes: Map<Pid, ProcessSnapshot>,
    children: Map<Pid, Vec<Pid>>,
    expanded: Set<Pid>,
    kids: Seq<Pid>,
    depth: nat,
    filter: Seq<char>,
    fuel: nat,
    j: int,
    r: TreeRow,
)
    requires
        0 <= j < kids.len(),
        node_rows(nodes, children, expanded, kids[j], depth, filter, fuel).contains(r),
    ensures
        list_rows(nodes, children, expanded, kids, depth, filter, fuel).contains(r),
    decreases kids.len(),
{
    let front = list_rows(nodes, children, expanded, kids.drop_last(), depth, filter, fuel);
    let back = node_rows(nodes, children, expanded, kids.last(), depth, filter, fuel);
    if j < kids.len() - 1 {
        assert(kids.drop_last()[j] == kids[j]);
        lemma_list_rows_contains(nodes, children, expanded, kids.drop_last(), depth, filter, fuel, j, r);
        let w = choose|w: int| 0 <= w < front.len() && front[w] == r;
        assert((front + back)[w] == r);
    } else {
        let w = choose|w: int| 0 <= w < back.len() && back[w] == r;
        assert((front + back)[front.len() + w] == r);
    }
}

/// A node on a chain of child links down to a match matches too, with
/// fuel for the rest of the chain.
proof fn lemma_chain_matches(
    nodes: Map<Pid, ProcessSnapshot>,
    children: Map<Pid, Vec<Pid>>,
    path: Seq<Pid>,
    filter: Seq<char>,
    k: int,
    fuel: nat,
)
    requires
        0 <= k < path.len(),
        is_child_path(children, path),
        self_matches(nodes, path.last(), filter),
        fuel >= path.len() - 1 - k,
    ensures
        node_matches(nodes, children, path[k], filter, fuel),
    decreases path.len() - k,
{
    if k < path.len() - 1 {
        lemma_chain_matches(nodes, children, path, filter, k + 1, (fuel - 1) as nat);
        assert(children.contains_key(path[k]) && children[path[k]]@.contains(path[k + 1]));
        let w = choose|w: int| 0 <= w < children[path[k]]@.len() && children[path[k]]@[w] == path[k + 1];
        lemma_any_matches_member(nodes, children, kids_of(children, path[k]), filter, (fuel - 1) as nat, w);
    }
}

/// The subtree rows of a chain member hold the row of the chain's end,
/// at its depth.
proof fn lemma_chain_rows(
    nodes: Map<Pid, ProcessSnapshot>,
    children: Map<Pid, Vec<Pid>>,
    expanded: Set<Pid>,
    path: Seq<Pid>,
    filter: Seq<char>,
    k: int,
    fuel: nat,
)
    requires
        0 <= k < path.len(),
        path.len() <= usize::MAX,
        is_child_path(children, path),
        filter.len() > 0,
        self_matches(nodes, path.last(), filter),
        fuel >= path.len() - 1 - k,
    ensures
        exists|i: int| #![trigger node_rows(nodes, children, expanded, path[k], k as nat, filter, fuel)[i]]
            0 <= i < node_rows(nodes, children, expanded, path[k], k as nat, filter, fuel).len()
            && node_rows(nodes, children, expanded, path[k], k as nat, filter, fuel)[i].pid == path.last()
            && node_rows(nodes, children, expanded, path[k], k as nat, filter, fuel)[i].depth == path.len() - 1,
    decreases path.len() - k,
{
    lemma_chain_matches(nodes, children, path, filter, k, fuel);
    let rows = node_rows(nodes, children, expanded, path[k], k as nat, filter, fuel);
    if k == path.len() - 1 {
        assert(rows[0].pid == path.last());
        assert(rows[0].depth == k);
    } else {
        lemma_chain_rows(nodes, children, expanded, path, filter, k + 1, (fuel - 1) as nat);
        let sub = node_rows(nodes, children, expanded, path[k + 1], (k + 1) as nat, filter, (fuel - 1) as nat);
        let i = choose|i: int| #![trigger sub[i]] 0 <= i < sub.len() && sub[i].pid == path.last() && sub[i].depth == path.len() - 1;
        assert(sub.contains(sub[i]));
        let kids = sorted_pids(kids_of(children, path[k]));
        lemma_sorted_pids_elements(kids_of(children, path[k]));
        assert(children.contains_key(path[k]) && children[path[k]]@.contains(path[k + 1]));
        assert(kids.contains(path[k + 1]));
        let j = choose|j: int| 0 <= j < kids.len() && kids[j] == path[k + 1];
        assert((k as nat) + 1 == (k + 1) as nat);
        lemma_list_rows_contains(nodes, children, expanded, kids, (k + 1) as nat, filter, (fuel - 1) as nat, j, sub[i]);
        let list = list_rows(nodes, children, expanded, kids, (k + 1) as nat, filter, (fuel - 1) as nat);
        assert(rows == seq![rows[0]] + list);
        let w = choose|w: int| 0 <= w < list.len() && list[w] == sub[i];
        assert(rows[w + 1] == sub[i]);
    }
}

/// In a well-formed tree each step of a chain of child links goes from a
/// parent to one of its children.
proof fn lemma_chain_step(tree: ProcessTree, path: Seq<Pid>, k: int)
    requires
        tree.well_formed(),
        is_child_path(tree.children@, path),
        1 <= k < path.len(),
    ensures
        is_child(tree.nodes@, path[k - 1], path[k]),
{
    assert(tree.children@.contains_key(path[k - 1]) && tree.children@[path[k - 1]]@.contains(path[k]));
}

/// A chain that returns to one of its members returns to its start.
proof fn lemma_repeat_reaches_start(tree: ProcessTree, path: Seq<Pid>, i: int, j: int)
    requires
        tree.well_formed(),
        is_child_path(tree.children@, path),
        0 <= i < j < path.len(),
        path[i] == path[j],
    ensures
        path[0] == path[j - i],
    decreases i,
{
    if i > 0 {
        lemma_chain_step(tree, path, i);
        lemma_chain_step(tree, path, j);
        lemma_repeat_reaches_start(tree, path, i - 1, j - 1);
    }
}

/// A finite set listed in some order has as many members as the list.
proof fn lemma_to_seq_len<A>(s: Set<A>)
    requires
        s.finite(),
    ensures
        s.to_seq().len() == s.len(),
    decreases s.len(),
{
    if s.len() > 0 {
        let x = s.choose();
        assert(s.contains(x));
        lemma_to_seq_len(s.remove(x));
    }
}

/// A chain of child links from a root of a well-formed tree visits no
/// process twice, so it is no longer than the tree has processes.
pub proof fn chain_from_a_root_is_no_longer_than_the_tree(tree: ProcessTree, path: Seq<Pid>)
    requires
        tree.well_formed(),
        path.len() >= 1,
        is_child_path(tree.children@, path),
        is_root(tree.nodes@, path[0]),
    ensures
        path.no_duplicates(),
        path.len() <= tree.nodes@.len(),
{
    assert forall|i: int, j: int| 0 <= i < path.len() && 0 <= j < path.len() && i != j implies path[i] != path[j] by {
        if path[i] == path[j] {
            let (a, b) = if i < j { (i, j) } else { (j, i) };
            lemma_repeat_reaches_start(tree, path, a, b);
            lemma_chain_step(tree, path, b - a);
        }
    }
    let dom = tree.nodes@.dom();
    assert forall|x: Pid| #[trigger] path.to_set().contains(x) implies dom.contains(x) by {
        let k = choose|k: int| 0 <= k < path.len() && path[k] == x;
        if k > 0 {
            lemma_chain_step(tree, path, k);
        }
    }
    vstd::std_specs::hash::axiom_hashmap_view_finite_dom(tree.nodes);
    path.unique_seq_to_set();
    vstd::set_lib::lemma_len_subset(path.to_set(), dom);
}

/// The roots of a tree can be listed, each once.
proof fn lemma_roots_listable(nodes: Map<Pid, ProcessSnapshot>)
    requires
        nodes.dom().finite(),
    ensures
        exists|s: Seq<Pid>| lists_roots(nodes, s),
{
    let roots = nodes.dom().filter(|p: Pid| is_root(nodes, p));
    nodes.dom().lemma_len_filter(|p: Pid| is_root(nodes, p));
    let s = roots.to_seq();
    lemma_to_seq_len(roots);
    roots.lemma_to_seq_to_set_id();
    s.lemma_no_dup_set_cardinality();
    assert forall|p: Pid| #[trigger] s.contains(p) <==> is_root(nodes, p) by {
        assert(s.to_set().contains(p) <==> s.contains(p));
    }
    assert(lists_roots(nodes, s));
}

/// A search never hides what it found: when the filter is not empty,
/// every process of a well-formed tree that matches it and hangs below a
/// root by a chain of child links is shown, at its depth, whatever is
/// expanded.
pub proof fn search_shows_every_match_below_a_root(
    tree: ProcessTree,
    expanded: Set<Pid>,
    filter: Seq<char>,
    path: Seq<Pid>,
)
    requires
        tree.well_formed(),
        path.len() >= 1,
        path.len() <= usize::MAX,
        is_child_path(tree.children@, path),
        is_root(tree.nodes@, path[0]),
        normalized_filter(filter).len() > 0,
        self_matches(tree.nodes@, path.last(), normalized_filter(filter)),
    ensures
        exists|i: int| 0 <= i < tree_rows(tree, expanded, filter).len()
            && #[trigger] tree_rows(tree, expanded, filter)[i].pid == path.last()
            && tree_rows(tree, expanded, filter)[i].depth == path.len() - 1,
{
    let nodes = tree.nodes@;
    let children = tree.children@;
    let f = normalized_filter(filter);
    let n = nodes.len();
    chain_from_a_root_is_no_longer_than_the_tree(tree, path);
    lemma_chain_rows(nodes, children, expanded, path, f, 0, n);
    let sub = node_rows(nodes, children, expanded, path[0], 0, f, n);
    let i = choose|i: int| #![trigger sub[i]] 0 <= i < sub.len() && sub[i].pid == path.last() && sub[i].depth == path.len() - 1;
    assert(sub.contains(sub[i]));
    vstd::std_specs::hash::axiom_hashmap_view_finite_dom(tree.nodes);
    lemma_roots_listable(nodes);
    let c = choose|s: Seq<Pid>| lists_roots(nodes, s);
    lemma_sorted_pids_elements(c);
    let roots = ordered_roots(nodes);
    assert(c.contains(path[0]));
    assert(roots.contains(path[0]));
    let j = choose|j: int| 0 <= j < roots.len() && roots[j] == path[0];
    lemma_list_rows_contains(nodes, children, expanded, roots, 0, f, n, j, sub[i]);
    let rows = tree_rows(tree, expanded, filter);
    let w = choose|w: int| 0 <= w < rows.len() && rows[w] == sub[i];
    assert(rows[w].pid == path.last());
}


/// A search finds processes by part of their name: when the filter
/// (trimmed and lowercased) is not empty and occurs anywhere inside the
/// lowercased name of a process of a well-formed tree that hangs below a
/// root by a chain of child links, that process is shown, at its depth,
/// whatever is expanded.
pub proof fn search_finds_a_name_containing_the_filter(
    tree: ProcessTree,
    expanded: Set<Pid>,
    filter: Seq<char>,
    path: Seq<Pid>,
    at: int,
)
    requires
        tree.well_formed(),
        path.len() >= 1,
        path.len() <= usize::MAX,
        is_child_path(tree.children@, path),
        is_root(tree.nodes@, path[0]),
        normalized_filter(filter).len() > 0,
        tree.nodes@.contains_key(path.last()),
        0 <= at,
        at + normalized_filter(filter).len() <= lowercase_of(tree.nodes@[path.last()].name@).len(),
        lowercase_of(tree.nodes@[path.last()].name@).subrange(at, at + normalized_filter(filter).len())
            == normalized_filter(filter),
    ensures
        exists|i: int| 0 <= i < tree_rows(tree, expanded, filter).len()
            && #[trigger] tree_rows(tree, expanded, filter)[i].pid == path.last()
            && tree_rows(tree, expanded, filter)[i].depth == path.len() - 1,
{
    let name = lowercase_of(tree.nodes@[path.last()].name@);
    let f = normalized_filter(filter);
    assert(name.subrange(at, at + f.len()) == f);
    assert(has_substring(name, f));
    assert(self_matches(tree.nodes@, path.last(), f));
    search_shows_every_match_below_a_root(tree, expanded, filter, path);
}
} // verus!
