use vstd::prelude::*;

use std::collections::HashMap;
use std::collections::HashSet;

use crate::process::{ProcessSnapshot, SnapshotView};
use crate::Pid;

verus! {

broadcast use vstd::std_specs::hash::group_hash_axioms;

/// The full process hierarchy at one point in time.
#[derive(Debug, Default)]
pub struct ProcessTree {
    pub nodes: HashMap<Pid, ProcessSnapshot>,
    pub children: HashMap<Pid, Vec<Pid>>,
}

/// Aggregated resource usage across a process and all of its descendants.
/// `cpu_percent_centi` is the summed utilization in hundredths of a percent.
#[derive(Debug, Clone, Copy, PartialEq, Eq, Default, Structural)]
pub struct FamilyRollup {
    pub process_count: u32,
    pub cpu_percent_centi: u64,
    pub rss: u64,
    pub thread_count: u32,
    pub open_file_count: u32,
}

/// `c` is a child of `p` in the node table: both are present, `c` names
/// `p` as its parent, and `c` is not its own parent.
pub open spec fn is_child(nodes: Map<Pid, ProcessSnapshot>, p: Pid, c: Pid) -> bool {
    &&& nodes.contains_key(c)
    &&& nodes.contains_key(p)
    &&& nodes[c].ppid == p
    &&& c != p
}

/// `p` is a root of the forest: its parent is absent, or is itself.
pub open spec fn is_root(nodes: Map<Pid, ProcessSnapshot>, p: Pid) -> bool {
    &&& nodes.contains_key(p)
    &&& (nodes[p].ppid == p || !nodes.contains_key(nodes[p].ppid))
}

/// The index of the last snapshot in `s` that describes `pid`.
pub open spec fn last_index_of(s: Seq<ProcessSnapshot>, pid: Pid, i: int) -> bool {
    &&& 0 <= i < s.len()
    &&& s[i].pid == pid
    &&& forall|j: int| i < j < s.len() ==> #[trigger] s[j].pid != pid
}

impl ProcessTree {
    /// Every node is stored under its own pid.
    pub open spec fn keyed(&self) -> bool {
        forall|k: Pid| #[trigger] self.nodes@.contains_key(k) ==> self.nodes@[k].pid == k
    }

    /// The child lists are exactly the parent links of the node table:
    /// `children[p]` lists, once each, the children of `p`, and only pids
    /// that have children have a list.
    pub open spec fn linked(&self) -> bool {
        &&& forall|p: Pid| #[trigger] self.children@.contains_key(p)
            <==> exists|c: Pid| is_child(self.nodes@, p, c)
        &&& forall|p: Pid| #[trigger] self.children@.contains_key(p)
            ==> self.children@[p]@.no_duplicates()
        &&& forall|p: Pid, c: Pid| #[trigger] self.children@.contains_key(p)
            ==> (self.children@[p]@.contains(c) <==> #[trigger] is_child(self.nodes@, p, c))
    }

    /// The shape `build` produces.
    pub open spec fn well_formed(&self) -> bool {
        self.keyed() && self.linked()
    }

    /// Builds a tree from a flat list of snapshots. When several snapshots
    /// share a pid the last one wins. A snapshot whose parent is absent from
    /// the list (or is itself) is a root: no child list mentions it.
    pub fn build(snapshots: Vec<ProcessSnapshot>) -> (tree: Self)
        ensures
            tree.well_formed(),
            forall|p: Pid| #[trigger] tree.nodes@.contains_key(p)
                <==> exists|i: int| 0 <= i < snapshots@.len() && snapshots@[i].pid == p,
            forall|p: Pid| #[trigger] tree.nodes@.contains_key(p) ==> exists|i: int|
                last_index_of(snapshots@, p, i) && tree.nodes@[p]@ == snapshots@[i]@,
    {
        let mut nodes: HashMap<Pid, ProcessSnapshot> = HashMap::new();
        let mut seen: HashSet<Pid> = HashSet::new();
        let mut order: Vec<Pid> = Vec::new();
        let mut i: usize = 0;
        while i < snapshots.len()
            invariant
                i <= snapshots@.len(),
                order@.no_duplicates(),
                forall|p: Pid| #[trigger] seen@.contains(p) <==> nodes@.contains_key(p),
                forall|p: Pid| #[trigger] order@.contains(p) <==> nodes@.contains_key(p),
                forall|p: Pid| #[trigger] nodes@.contains_key(p)
                    <==> exists|j: int| 0 <= j < i && snapshots@[j].pid == p,
                forall|p: Pid| #[trigger] nodes@.contains_key(p) ==> exists|j: int|
                    0 <= j < i && snapshots@[j].pid == p && nodes@[p]@ == snapshots@[j]@
                    && forall|k: int| j < k < i ==> #[trigger] snapshots@[k].pid != p,
            decreases snapshots@.len() - i,
        {
            let snap = snapshots[i].clone();
            let pid = snap.pid;
            assert(snapshots@[i as int].pid == pid);
            let ghost old_order = order@;
            let ghost old_nodes = nodes@;
            if !seen.contains(&pid) {
                seen.insert(pid);
                proof { crate::seqs::lemma_push_no_dup(order@, pid); }
                order.push(pid);
            }
            nodes.insert(pid, snap);
            proof {
                assert forall|p: Pid| #[trigger] order@.contains(p) implies nodes@.contains_key(p) by {
                    let k = choose|k: int| 0 <= k < order@.len() && order@[k] == p;
                    if k < old_order.len() {
                        assert(old_order[k] == p);
                        assert(old_order.contains(p));
                    }
                }
                assert forall|p: Pid| #[trigger] nodes@.contains_key(p) implies order@.contains(p) by {
                    if p == pid {
                        if order@ != old_order {
                            assert(order@[order@.len() - 1] == pid);
                        } else {
                            assert(old_order.contains(pid));
                        }
                    } else {
                        assert(old_nodes.contains_key(p));
                        assert(old_order.contains(p));
                        let k = choose|k: int| 0 <= k < old_order.len() && old_order[k] == p;
                        assert(order@[k] == p);
                    }
                }
                assert forall|p: Pid| #[trigger] nodes@.contains_key(p) implies exists|j: int|
                    0 <= j < i + 1 && snapshots@[j].pid == p && nodes@[p]@ == snapshots@[j]@
                    && forall|k: int| j < k < i + 1 ==> #[trigger] snapshots@[k].pid != p by {
                    if p == pid {
                        assert(snapshots@[i as int].pid == p);
                    } else {
                        let j = choose|j: int|
                            0 <= j < i && snapshots@[j].pid == p && nodes@[p]@ == snapshots@[j]@
                            && forall|k: int| j < k < i ==> #[trigger] snapshots@[k].pid != p;
                        assert(forall|k: int| j < k < i + 1 ==> #[trigger] snapshots@[k].pid != p);
                    }
                }
                assert forall|p: Pid| (exists|j: int| 0 <= j < i + 1 && snapshots@[j].pid == p)
                    implies #[trigger] nodes@.contains_key(p) by {
                    if p != pid {
                        let j = choose|j: int| 0 <= j < i + 1 && snapshots@[j].pid == p;
                        assert(j < i);
                    }
                }
            }
            i += 1;
        }
        let ghost nv = nodes@;
        assert forall|k: Pid| #[trigger] nv.contains_key(k) implies nv[k].pid == k by {
            let j = choose|j: int|
                0 <= j < i && snapshots@[j].pid == k && nodes@[k]@ == snapshots@[j]@
                && forall|m: int| j < m < i ==> #[trigger] snapshots@[m].pid != k;
        }

        let mut children: HashMap<Pid, Vec<Pid>> = HashMap::new();
        let mut n: usize = 0;
        while n < order.len()
            invariant
                n <= order@.len(),
                nodes@ == nv,
                order@.no_duplicates(),
                forall|p: Pid| #[trigger] order@.contains(p) <==> nv.contains_key(p),
                forall|k: Pid| #[trigger] nv.contains_key(k) ==> nv[k].pid == k,
                forall|p: Pid| #[trigger] children@.contains_key(p)
                    <==> exists|m: int| 0 <= m < n && is_child(nv, p, #[trigger] order@[m]),
                forall|p: Pid| #[trigger] children@.contains_key(p)
                    ==> children@[p]@ == order@.take(n as int).filter(|c: Pid| is_child(nv, p, c)),
            decreases order@.len() - n,
        {
            let pid = order[n];
            assert(order@.contains(pid));
            let snap = nodes.get(&pid).unwrap();
            let ppid = snap.ppid;
            assert(nv[pid].ppid == ppid);
            assert(order@.take(n + 1) =~= order@.take(n as int).push(pid));
            let ghost before = children@;
            if nodes.contains_key(&ppid) && ppid != pid {
                assert(is_child(nv, ppid, pid));
                let list = match children.remove(&ppid) {
                    Some(mut v) => {
                        v.push(pid);
                        v
                    },
                    None => {
                        let mut v: Vec<Pid> = Vec::new();
                        v.push(pid);
                        proof {
                            assert forall|m: int| 0 <= m < n implies !is_child(nv, ppid, #[trigger] order@[m]) by {
                                if is_child(nv, ppid, order@[m]) {
                                    assert(before.contains_key(ppid));
                                }
                            }
                            assert(order@.take(n as int).filter(|c: Pid| is_child(nv, ppid, c)) =~= Seq::empty()) by {
                                let f = order@.take(n as int).filter(|c: Pid| is_child(nv, ppid, c));
                                if f.len() > 0 {
                                    assert(f.contains(f[0]));
                                    order@.take(n as int).lemma_filter_contains_rev(|c: Pid| is_child(nv, ppid, c), f[0]);
                                    let w = choose|w: int| 0 <= w < n && order@.take(n as int)[w] == f[0];
                                    assert(is_child(nv, ppid, order@[w]));
                                }
                            }
                        }
                        v
                    },
                };
                children.insert(ppid, list);
                proof {
                    assert forall|p: Pid| #[trigger] children@.contains_key(p)
                        implies children@[p]@ == order@.take(n + 1).filter(|c: Pid| is_child(nv, p, c)) by {
                        order@.take(n as int).lemma_filter_push(pid, |c: Pid| is_child(nv, p, c));
                    }
                    assert forall|p: Pid| (exists|m: int| 0 <= m < n + 1 && is_child(nv, p, #[trigger] order@[m]))
                        implies #[trigger] children@.contains_key(p) by {
                        let m = choose|m: int| 0 <= m < n + 1 && is_child(nv, p, #[trigger] order@[m]);
                        if m < n {
                            assert(exists|mm: int| 0 <= mm < n && is_child(nv, p, #[trigger] order@[mm]));
                            assert(before.contains_key(p));
                        }
                    }
                }
            } else {
                proof {
                    assert(!is_child(nv, ppid, pid));
                    assert forall|p: Pid| #[trigger] children@.contains_key(p)
                        implies children@[p]@ == order@.take(n + 1).filter(|c: Pid| is_child(nv, p, c)) by {
                        order@.take(n as int).lemma_filter_push(pid, |c: Pid| is_child(nv, p, c));
                        assert(!is_child(nv, p, pid));
                    }
                    assert forall|p: Pid| (exists|m: int| 0 <= m < n + 1 && is_child(nv, p, #[trigger] order@[m]))
                        implies #[trigger] children@.contains_key(p) by {
                        let m = choose|m: int| 0 <= m < n + 1 && is_child(nv, p, #[trigger] order@[m]);
                        if m == n {
                            assert(nv[pid].ppid == p);
                        } else {
                            assert(exists|mm: int| 0 <= mm < n && is_child(nv, p, #[trigger] order@[mm]));
                        }
                    }
                }
            }
            n += 1;
        }
        let tree = ProcessTree { nodes, children };
        proof {
            assert(order@.take(order@.len() as int) =~= order@);
            assert forall|p: Pid| #[trigger] tree.children@.contains_key(p)
                implies tree.children@[p]@.no_duplicates() by {
                crate::seqs::lemma_filter_no_dup(order@, |c: Pid| is_child(nv, p, c));
            }
            assert forall|p: Pid, c: Pid| #[trigger] tree.children@.contains_key(p)
                implies (tree.children@[p]@.contains(c) <==> #[trigger] is_child(nv, p, c)) by {
                if is_child(nv, p, c) {
                    assert(order@.contains(c));
                    let w = choose|w: int| 0 <= w < order@.len() && order@[w] == c;
                    order@.lemma_filter_contains(|x: Pid| is_child(nv, p, x), w);
                }
                if tree.children@[p]@.contains(c) {
                    order@.lemma_filter_contains_rev(|x: Pid| is_child(nv, p, x), c);
                }
            }
            assert forall|p: Pid| (exists|c: Pid| is_child(nv, p, c))
                implies #[trigger] tree.children@.contains_key(p) by {
                let c = choose|c: Pid| is_child(nv, p, c);
                assert(order@.contains(c));
                let w = choose|w: int| 0 <= w < order@.len() && order@[w] == c;
            }
            assert forall|p: Pid| #[trigger] tree.nodes@.contains_key(p) implies exists|j: int|
                last_index_of(snapshots@, p, j) && tree.nodes@[p]@ == snapshots@[j]@ by {
                let j = choose|j: int|
                    0 <= j < i && snapshots@[j].pid == p && nodes@[p]@ == snapshots@[j]@
                    && forall|k: int| j < k < i ==> #[trigger] snapshots@[k].pid != p;
                assert(last_index_of(snapshots@, p, j));
            }
        }
        tree
    }
}


impl ProcessTree {
    /// The roots of the forest: every process whose parent is absent from
    /// the tree or is itself, each once, in the order the node table is
    /// walked.
    pub fn roots(&self) -> (r: Vec<Pid>)
        ensures
            r@.no_duplicates(),
            forall|p: Pid| #[trigger] r@.contains(p) <==> is_root(self.nodes@, p),
    {
        let mut out: Vec<Pid> = Vec::new();
        let ghost pred = |p: Pid| is_root(self.nodes@, p);
        let ghost keys = vstd::std_specs::iter::IteratorSpec::remaining(&vstd::std_specs::hash::spec_keys_iter(&self.nodes)).unref();
        for k in it: self.nodes.keys()
            invariant
                it.seq().unref() == keys,
                pred == (|p: Pid| is_root(self.nodes@, p)),
                out@ == keys.take(it.index()).filter(pred),
        {
            let pid = *k;
            assert(pid == keys[it.index()]);
            let snap = self.nodes.get(&pid).unwrap();
            assert(pred(pid) <==> (snap.ppid == pid || !self.nodes@.contains_key(snap.ppid)));
            if snap.ppid == pid || !self.nodes.contains_key(&snap.ppid) {
                out.push(pid);
            }
            assert(keys.take(it.index() + 1) =~= keys.take(it.index()).push(pid));
            proof { keys.take(it.index()).lemma_filter_push(pid, pred); }
        }
        assert(keys.take(keys.len() as int) =~= keys);
        assert(out@ == keys.filter(pred));
        proof {
            assert(keys.no_duplicates());
            assert(keys.to_set() == self.nodes@.dom());
            crate::seqs::lemma_filter_no_dup(keys, pred);
            assert forall|p: Pid| #[trigger] out@.contains(p) <==> is_root(self.nodes@, p) by {
                if out@.contains(p) {
                    keys.lemma_filter_contains_rev(pred, p);
                    let w = choose|w: int| 0 <= w < keys.len() && keys[w] == p;
                    keys.lemma_filter_pred(pred, out@.index_of(p));
                }
                if is_root(self.nodes@, p) {
                    assert(keys.to_set().contains(p));
                    let w = choose|w: int| 0 <= w < keys.len() && keys[w] == p;
                    keys.lemma_filter_contains(pred, w);
                }
            }
        }
        out
    }
}


/// `path` follows child links: each member after the first is listed as a
/// child of the member before it.
pub open spec fn is_child_path(children: Map<Pid, Vec<Pid>>, path: Seq<Pid>) -> bool {
    forall|i: int| 0 <= i < path.len() - 1 ==> children.contains_key(#[trigger] path[i])
        && children[path[i]]@.contains(path[i + 1])
}

/// `d` is `root` itself or one of its descendants: some chain of child
/// links leads from `root` to `d`.
pub open spec fn in_family(children: Map<Pid, Vec<Pid>>, root: Pid, d: Pid) -> bool {
    exists|path: Seq<Pid>| #[trigger] is_child_path(children, path) && path.len() >= 1
        && path[0] == root && path.last() == d
}

/// Some member of `s` before position `i` (and before `bound`) lists
/// `s[i]` as its child.
pub open spec fn listed_earlier(children: Map<Pid, Vec<Pid>>, s: Seq<Pid>, i: int, bound: int) -> bool {
    exists|j: int| 0 <= j < i && j < bound && children.contains_key(s[j])
        && #[trigger] children[s[j]]@.contains(s[i])
}

/// One more child link extends a chain to a member's child.
proof fn lemma_family_step(children: Map<Pid, Vec<Pid>>, root: Pid, m: Pid, c: Pid)
    requires
        in_family(children, root, m),
        children.contains_key(m),
        children[m]@.contains(c),
    ensures
        in_family(children, root, c),
{
    let path = choose|path: Seq<Pid>| #[trigger] is_child_path(children, path) && path.len() >= 1
        && path[0] == root && path.last() == m;
    let p2 = path.push(c);
    assert forall|i: int| 0 <= i < p2.len() - 1 implies children.contains_key(#[trigger] p2[i])
        && children[p2[i]]@.contains(p2[i + 1]) by {
        if i < path.len() - 1 {
            assert(p2[i] == path[i] && p2[i + 1] == path[i + 1]);
        } else {
            assert(p2[i] == m && p2[i + 1] == c);
        }
    }
    assert(is_child_path(children, p2));
}

/// A sequence closed under child links that contains the start of a chain
/// contains its `k`-th member.
proof fn lemma_closed_contains_path(children: Map<Pid, Vec<Pid>>, s: Seq<Pid>, path: Seq<Pid>, k: int)
    requires
        is_child_path(children, path),
        0 <= k < path.len(),
        s.contains(path[0]),
        forall|i: int, c: Pid| 0 <= i < s.len() && children.contains_key(s[i])
            && #[trigger] children[s[i]]@.contains(c) ==> s.contains(c),
    ensures
        s.contains(path[k]),
    decreases k,
{
    if k > 0 {
        lemma_closed_contains_path(children, s, path, k - 1);
        assert(children.contains_key(path[k - 1]) && children[path[k - 1]]@.contains(path[k]));
        let w = choose|w: int| 0 <= w < s.len() && s[w] == path[k - 1];
        assert(children[s[w]]@.contains(path[k]));
    }
}

/// A sequence that contains `root` and, for each of its members, all of
/// that member's children, contains every descendant of `root`.
proof fn lemma_closed_contains_family(children: Map<Pid, Vec<Pid>>, root: Pid, s: Seq<Pid>, d: Pid)
    requires
        s.contains(root),
        forall|i: int, c: Pid| 0 <= i < s.len() && children.contains_key(s[i])
            && #[trigger] children[s[i]]@.contains(c) ==> s.contains(c),
        in_family(children, root, d),
    ensures
        s.contains(d),
{
    let path = choose|path: Seq<Pid>| #[trigger] is_child_path(children, path) && path.len() >= 1
        && path[0] == root && path.last() == d;
    lemma_closed_contains_path(children, s, path, path.len() - 1);
}

/// The children listed for `p`, none when it has no list.
pub open spec fn kids_of(children: Map<Pid, Vec<Pid>>, p: Pid) -> Seq<Pid> {
    if children.contains_key(p) { children[p]@ } else { Seq::empty() }
}

/// The children of the first `n` members of `s`, list after list: what a
/// breadth-first walk queues while it visits those members.
pub open spec fn queued_after(children: Map<Pid, Vec<Pid>>, s: Seq<Pid>, n: int) -> Seq<Pid>
    decreases n,
{
    if n <= 0 { Seq::empty() } else { queued_after(children, s, n - 1) + kids_of(children, s[n - 1]) }
}

/// `r` is the breadth-first walk from `pid`: `pid`, then the children of
/// each member in the order the members come, which is the order a queue
/// started with `pid` hands them out.
pub open spec fn breadth_first(children: Map<Pid, Vec<Pid>>, pid: Pid, r: Seq<Pid>) -> bool {
    r == seq![pid] + queued_after(children, r, r.len() as int)
}

/// `pid` is listed as a child of one of its own descendants: a walk down
/// the child links from `pid` comes back to it and never ends.
pub open spec fn reenters(children: Map<Pid, Vec<Pid>>, pid: Pid) -> bool {
    exists|x: Pid| #[trigger] in_family(children, pid, x) && children.contains_key(x) && children[x]@.contains(pid)
}

proof fn lemma_queued_prefix(children: Map<Pid, Vec<Pid>>, s: Seq<Pid>, t: Seq<Pid>, n: int)
    requires
        0 <= n <= s.len(),
        n <= t.len(),
        forall|i: int| 0 <= i < n ==> s[i] == t[i],
    ensures
        queued_after(children, s, n) == queued_after(children, t, n),
    decreases n,
{
    if n > 0 {
        lemma_queued_prefix(children, s, t, n - 1);
    }
}

proof fn lemma_queued_member(children: Map<Pid, Vec<Pid>>, s: Seq<Pid>, n: int, x: Pid)
    requires
        0 <= n <= s.len(),
        queued_after(children, s, n).contains(x),
    ensures
        exists|j: int| 0 <= j < n && #[trigger] kids_of(children, s[j]).contains(x),
    decreases n,
{
    if n > 0 {
        let q = queued_after(children, s, n - 1);
        let k = kids_of(children, s[n - 1]);
        let w = choose|w: int| 0 <= w < (q + k).len() && (q + k)[w] == x;
        if w < q.len() {
            assert(q[w] == x);
            assert(q.contains(x));
            lemma_queued_member(children, s, n - 1, x);
        } else {
            assert(k[w - q.len()] == x);
            assert(k.contains(x));
        }
    }
}

impl ProcessTree {
    /// In a well-formed tree where `pid` is not its own descendant, a
    /// breadth-first walk never meets a child it has already queued.
    proof fn lemma_no_second_visit(&self, pid: Pid, fam: Seq<Pid>, head: int, kids: Seq<Pid>, k: int)
        requires
            self.well_formed(),
            !reenters(self.children@, pid),
            0 <= head < fam.len(),
            fam.no_duplicates(),
            self.children@.contains_key(fam[head]),
            self.children@[fam[head]]@ == kids,
            in_family(self.children@, pid, fam[head]),
            0 <= k < kids.len(),
            fam == seq![pid] + queued_after(self.children@, fam, head) + kids.take(k),
        ensures
            !fam.contains(kids[k]),
    {
        if fam.contains(kids[k]) {
            let ch = self.children@;
            let c = kids[k];
            let cur = fam[head];
            assert(kids.contains(c));
            assert(is_child(self.nodes@, cur, c));
            let w = choose|w: int| 0 <= w < fam.len() && fam[w] == c;
            let q = queued_after(ch, fam, head);
            if w == 0 {
                assert(c == pid);
                assert(in_family(ch, pid, cur) && ch.contains_key(cur) && ch[cur]@.contains(pid));
                assert(reenters(ch, pid));
            } else if w - 1 < q.len() {
                assert(q[w - 1] == c);
                assert(q.contains(c));
                lemma_queued_member(ch, fam, head, c);
                let j = choose|j: int| 0 <= j < head && #[trigger] kids_of(ch, fam[j]).contains(c);
                assert(ch.contains_key(fam[j]));
                assert(is_child(self.nodes@, fam[j], c));
                assert(fam[j] == fam[head]);
            } else {
                let m = w - 1 - q.len();
                assert(kids.take(k)[m] == c);
                assert(kids[m] == kids[k]);
                assert(kids.no_duplicates());
            }
        }
    }

    /// `pid` plus every descendant, each once, in breadth-first order: every
    /// member after the first comes after the member that lists it as a
    /// child, and in a well-formed tree where `pid` is not its own
    /// descendant the members come exactly in the order of a queue started
    /// with `pid` (see `breadth_first`). Empty when `pid` is not in the tree.
    pub fn family(&self, pid: Pid) -> (r: Vec<Pid>)
        ensures
            !self.nodes@.contains_key(pid) ==> r@.len() == 0,
            self.nodes@.contains_key(pid) ==> {
                &&& r@.len() > 0
                &&& r@[0] == pid
                &&& r@.no_duplicates()
                &&& forall|d: Pid| #[trigger] r@.contains(d) <==> in_family(self.children@, pid, d)
                &&& forall|i: int| 0 < i < r@.len() ==> #[trigger] listed_earlier(self.children@, r@, i, i)
            },
            self.nodes@.contains_key(pid) && self.well_formed() && !reenters(self.children@, pid)
                ==> breadth_first(self.children@, pid, r@),
    {
        if !self.nodes.contains_key(&pid) {
            return Vec::new();
        }
        let ghost ch = self.children@;
        let ghost plain = self.well_formed() && !reenters(ch, pid);
        let mut family: Vec<Pid> = Vec::new();
        let mut visited: HashSet<Pid> = HashSet::new();
        family.push(pid);
        visited.insert(pid);
        assert(in_family(ch, pid, pid)) by {
            let path = seq![pid];
            assert(is_child_path(ch, path));
        }
        let mut head: usize = 0;
        while head < family.len()
            invariant
                ch == self.children@,
                head <= family@.len(),
                family@.len() > 0,
                family@[0] == pid,
                family@.no_duplicates(),
                forall|x: Pid| #[trigger] visited@.contains(x) <==> family@.contains(x),
                forall|x: Pid| #[trigger] family@.contains(x) ==> in_family(ch, pid, x),
                forall|i: int, c: Pid| 0 <= i < head && ch.contains_key(family@[i])
                    && #[trigger] ch[family@[i]]@.contains(c) ==> family@.contains(c),
                forall|i: int| 0 < i < family@.len() ==> #[trigger] listed_earlier(ch, family@, i, head as int),
                plain ==> self.well_formed() && !reenters(ch, pid),
                plain ==> family@ == seq![pid] + queued_after(ch, family@, head as int),
            decreases usize::MAX - head,
        {
            let cur = family[head];
            assert(family@.contains(cur));
            match self.children.get(&cur) {
                Some(kids) => {
                    assert forall|i: int| 0 < i < family@.len() implies #[trigger] listed_earlier(ch, family@, i, head + 1) by {
                        assert(listed_earlier(ch, family@, i, head as int));
                    }
                    let mut k: usize = 0;
                    while k < kids.len()
                        invariant
                            ch == self.children@,
                            ch.contains_key(cur),
                            ch[cur] == *kids,
                            head < family@.len(),
                            family@[head as int] == cur,
                            in_family(ch, pid, cur),
                            k <= kids@.len(),
                            family@.len() > 0,
                            family@[0] == pid,
                            family@.no_duplicates(),
                            forall|x: Pid| #[trigger] visited@.contains(x) <==> family@.contains(x),
                            forall|x: Pid| #[trigger] family@.contains(x) ==> in_family(ch, pid, x),
                            forall|i: int, c: Pid| 0 <= i < head && ch.contains_key(family@[i])
                                && #[trigger] ch[family@[i]]@.contains(c) ==> family@.contains(c),
                            forall|j: int| 0 <= j < k ==> family@.contains(#[trigger] kids@[j]),
                            forall|i: int| 0 < i < family@.len() ==> #[trigger] listed_earlier(ch, family@, i, head + 1),
                            plain ==> self.well_formed() && !reenters(ch, pid),
                            plain ==> family@ == seq![pid] + queued_after(ch, family@, head as int) + kids@.take(k as int),
                        decreases kids@.len() - k,
                    {
                        let c = kids[k];
                        let ghost before = family@;
                        proof {
                            if plain {
                                self.lemma_no_second_visit(pid, family@, head as int, kids@, k as int);
                            }
                        }
                        if !visited.contains(&c) {
                            proof {
                                crate::seqs::lemma_push_no_dup(family@, c);
                                assert(kids@[k as int] == c);
                                assert(kids@.contains(c));
                                lemma_family_step(ch, pid, cur, c);
                            }
                            visited.insert(c);
                            family.push(c);
                            proof {
                                assert forall|x: Pid| #[trigger] family@.contains(x) implies in_family(ch, pid, x) by {
                                    if x != c {
                                        let w = choose|w: int| 0 <= w < family@.len() && family@[w] == x;
                                        assert(before[w] == x);
                                        assert(before.contains(x));
                                    } else {
                                    }
                                }
                                assert forall|x: Pid| #[trigger] visited@.contains(x) <==> family@.contains(x) by {
                                    if x != c && family@.contains(x) {
                                        let w = choose|w: int| 0 <= w < family@.len() && family@[w] == x;
                                        assert(before[w] == x);
                                    }
                                    if x != c && before.contains(x) {
                                        let w = choose|w: int| 0 <= w < before.len() && before[w] == x;
                                        assert(family@[w] == x);
                                    }
                                    if x == c {
                                        assert(family@[family@.len() - 1] == c);
                                    }
                                }
                                assert forall|i: int, cc: Pid| 0 <= i < head && ch.contains_key(family@[i])
                                    && #[trigger] ch[family@[i]]@.contains(cc) implies family@.contains(cc) by {
                                    assert(family@[i] == before[i]);
                                    assert(before.contains(cc));
                                    let w = choose|w: int| 0 <= w < before.len() && before[w] == cc;
                                    assert(family@[w] == cc);
                                }
                                assert forall|j: int| 0 <= j < k + 1 implies family@.contains(#[trigger] kids@[j]) by {
                                    if j < k {
                                        assert(before.contains(kids@[j]));
                                        let w = choose|w: int| 0 <= w < before.len() && before[w] == kids@[j];
                                        assert(family@[w] == kids@[j]);
                                    } else {
                                        assert(family@[family@.len() - 1] == c);
                                    }
                                }
                                assert forall|i: int| 0 < i < family@.len() implies #[trigger] listed_earlier(ch, family@, i, head + 1) by {
                                    if i < before.len() {
                                        assert(listed_earlier(ch, before, i, head + 1));
                                        let j = choose|j: int| 0 <= j < i && j < head + 1
                                            && ch.contains_key(before[j]) && #[trigger] ch[before[j]]@.contains(before[i]);
                                        assert(family@[j] == before[j] && family@[i] == before[i]);
                                        assert(ch[family@[j]]@.contains(family@[i]));
                                    } else {
                                        assert(family@[head as int] == cur);
                                        assert(family@[i] == c);
                                        assert(ch[family@[head as int]]@.contains(family@[i]));
                                    }
                                }
                            }
                        }
                        proof {
                            if plain {
                                assert(family@ =~= before.push(c));
                                lemma_queued_prefix(ch, before, family@, head as int);
                                assert(kids@[k as int] == c);
                                assert(kids@.take(k + 1) =~= kids@.take(k as int).push(c));
                                assert(family@ =~= seq![pid] + queued_after(ch, family@, head as int) + kids@.take(k + 1));
                            }
                        }
                        k += 1;
                    }
                    proof {
                        if plain {
                            assert(kids@.take(k as int) =~= kids@);
                            assert(kids_of(ch, family@[head as int]) == kids@);
                            assert(queued_after(ch, family@, head + 1)
                                == queued_after(ch, family@, head as int) + kids_of(ch, family@[head as int]));
                        }
                        assert forall|i: int, c: Pid| 0 <= i < head + 1 && ch.contains_key(family@[i])
                            && #[trigger] ch[family@[i]]@.contains(c) implies family@.contains(c) by {
                            if i == head {
                                let w = choose|w: int| 0 <= w < kids@.len() && kids@[w] == c;
                                assert(family@.contains(kids@[w]));
                            }
                        }
                    }
                },
                None => {
                    proof {
                        if plain {
                            assert(kids_of(ch, family@[head as int]) =~= Seq::<Pid>::empty());
                            assert(queued_after(ch, family@, head + 1) =~= queued_after(ch, family@, head as int));
                        }
                    }
                    assert forall|i: int| 0 < i < family@.len() implies #[trigger] listed_earlier(ch, family@, i, head + 1) by {
                        assert(listed_earlier(ch, family@, i, head as int));
                    }
                    assert forall|i: int, c: Pid| 0 <= i < head + 1 && ch.contains_key(family@[i])
                        && #[trigger] ch[family@[i]]@.contains(c) implies family@.contains(c) by {
                        if i == head {
                            assert(!ch.contains_key(cur));
                        }
                    }
                },
            }
            head += 1;
        }
        proof {
            if plain {
                assert(head == family@.len());
                assert(breadth_first(ch, pid, family@));
            }
            assert forall|i: int| 0 < i < family@.len() implies #[trigger] listed_earlier(self.children@, family@, i, i) by {
                assert(listed_earlier(ch, family@, i, head as int));
            }
            assert forall|d: Pid| #[trigger] family@.contains(d) <==> in_family(self.children@, pid, d) by {
                if in_family(self.children@, pid, d) {
                    assert(family@[0] == pid);
                    lemma_closed_contains_family(ch, pid, family@, d);
                }
            }
        }
        family
    }
}


/// The values of a node table.
pub open spec fn node_views(nodes: Map<Pid, ProcessSnapshot>) -> Map<Pid, SnapshotView> {
    nodes.map_values(|s: ProcessSnapshot| s@)
}

/// `c` is a child of `p` in a process table: both are present, `c` names
/// `p` as its parent, and `c` is not its own parent.
pub open spec fn parent_link(nodes: Map<Pid, SnapshotView>, p: Pid, c: Pid) -> bool {
    &&& nodes.contains_key(c)
    &&& nodes.contains_key(p)
    &&& nodes[c].ppid == p
    &&& c != p
}

/// Each member of `path` after the first is a child of the one before.
pub open spec fn is_lineage(nodes: Map<Pid, SnapshotView>, path: Seq<Pid>) -> bool {
    forall|i: int| 0 <= i < path.len() - 1 ==> parent_link(nodes, #[trigger] path[i], path[i + 1])
}

/// `d` is `root` or descends from it by parent links.
pub open spec fn descends(nodes: Map<Pid, SnapshotView>, root: Pid, d: Pid) -> bool {
    exists|path: Seq<Pid>| #[trigger] is_lineage(nodes, path) && path.len() >= 1
        && path[0] == root && path.last() == d
}

/// `root` and everything that descends from it.
pub open spec fn lineage(nodes: Map<Pid, SnapshotView>, root: Pid) -> Set<Pid> {
    Set::new(|d: Pid| descends(nodes, root, d))
}

/// In a tree that `build` could have made, the child lists lead from a pid
/// to exactly the processes that descend from it by parent links.
pub proof fn lemma_family_is_lineage(tree: ProcessTree, root: Pid, d: Pid)
    requires
        tree.well_formed(),
    ensures
        in_family(tree.children@, root, d) <==> descends(node_views(tree.nodes@), root, d),
{
    let ch = tree.children@;
    let nv = node_views(tree.nodes@);
    assert forall|path: Seq<Pid>| is_child_path(ch, path) <==> #[trigger] is_lineage(nv, path) by {
        assert forall|i: int| 0 <= i < path.len() - 1 implies
            ((ch.contains_key(path[i]) && ch[path[i]]@.contains(path[i + 1])) <==> parent_link(nv, path[i], path[i + 1])) by {
            let p = path[i];
            let c = path[i + 1];
            if ch.contains_key(p) {
                assert(ch[p]@.contains(c) <==> is_child(tree.nodes@, p, c));
            } else if parent_link(nv, p, c) {
                assert(is_child(tree.nodes@, p, c));
            }
        }
        if is_child_path(ch, path) {
            assert forall|i: int| 0 <= i < path.len() - 1 implies parent_link(nv, #[trigger] path[i], path[i + 1]) by {
                assert(ch.contains_key(path[i]) && ch[path[i]]@.contains(path[i + 1]));
            }
        }
        if is_lineage(nv, path) {
            assert forall|i: int| 0 <= i < path.len() - 1 implies ch.contains_key(#[trigger] path[i])
                && ch[path[i]]@.contains(path[i + 1]) by {
                assert(parent_link(nv, path[i], path[i + 1]));
            }
        }
    }
    if in_family(ch, root, d) {
        let path = choose|path: Seq<Pid>| #[trigger] is_child_path(ch, path) && path.len() >= 1
            && path[0] == root && path.last() == d;
        assert(is_lineage(nv, path));
    }
    if descends(nv, root, d) {
        let path = choose|path: Seq<Pid>| #[trigger] is_lineage(nv, path) && path.len() >= 1
            && path[0] == root && path.last() == d;
        assert(is_child_path(ch, path));
    }
}

/// The family set of a well-formed tree is the lineage of its node table.
pub proof fn lemma_family_set_is_lineage(tree: ProcessTree, root: Pid)
    requires
        tree.well_formed(),
    ensures
        tree.family_set(root) == lineage(node_views(tree.nodes@), root),
{
    assert forall|d: Pid| #[trigger] tree.family_set(root).contains(d)
        <==> lineage(node_views(tree.nodes@), root).contains(d) by {
        lemma_family_is_lineage(tree, root, d);
    }
    assert(tree.family_set(root) =~= lineage(node_views(tree.nodes@), root));
}

/// The sum of `f` over the members of a finite set.
pub open spec fn set_sum(s: Set<Pid>, f: spec_fn(Pid) -> int) -> int {
    s.fold(0int, |acc: int, p: Pid| acc + f(p))
}

/// The sum of `f` over the members of a sequence, in order.
pub open spec fn seq_sum(s: Seq<Pid>, f: spec_fn(Pid) -> int) -> int
    decreases s.len(),
{
    if s.len() == 0 {
        0
    } else {
        seq_sum(s.drop_last(), f) + f(s.last())
    }
}

/// One for every pid present in the node table.
pub open spec fn count_of(nodes: Map<Pid, SnapshotView>) -> spec_fn(Pid) -> int {
    |p: Pid| if nodes.contains_key(p) { 1int } else { 0int }
}

/// The CPU utilization (hundredths of a percent) of a present pid.
pub open spec fn cpu_of(nodes: Map<Pid, SnapshotView>) -> spec_fn(Pid) -> int {
    |p: Pid| if nodes.contains_key(p) { nodes[p].cpu.percent_centi as int } else { 0int }
}

/// The resident set size of a present pid.
pub open spec fn rss_of(nodes: Map<Pid, SnapshotView>) -> spec_fn(Pid) -> int {
    |p: Pid| if nodes.contains_key(p) { nodes[p].memory.rss as int } else { 0int }
}

/// The thread count of a present pid.
pub open spec fn threads_of(nodes: Map<Pid, SnapshotView>) -> spec_fn(Pid) -> int {
    |p: Pid| if nodes.contains_key(p) { nodes[p].thread_count as int } else { 0int }
}

/// The open-file count of a present pid.
pub open spec fn files_of(nodes: Map<Pid, SnapshotView>) -> spec_fn(Pid) -> int {
    |p: Pid| if nodes.contains_key(p) { nodes[p].open_file_count as int } else { 0int }
}

proof fn lemma_seq_sum_step(s: Seq<Pid>, f: spec_fn(Pid) -> int, i: int)
    requires
        0 <= i < s.len(),
    ensures
        seq_sum(s.take(i + 1), f) == seq_sum(s.take(i), f) + f(s[i]),
{
    assert(s.take(i + 1).drop_last() =~= s.take(i));
}

proof fn lemma_seq_sum_mono(s: Seq<Pid>, f: spec_fn(Pid) -> int, i: int)
    requires
        0 <= i <= s.len(),
        forall|p: Pid| #[trigger] f(p) >= 0,
    ensures
        seq_sum(s.take(i), f) <= seq_sum(s, f),
    decreases s.len() - i,
{
    if i < s.len() {
        lemma_seq_sum_step(s, f, i);
        lemma_seq_sum_mono(s, f, i + 1);
    } else {
        assert(s.take(i) =~= s);
    }
}

proof fn lemma_seq_sum_is_set_sum(s: Seq<Pid>, f: spec_fn(Pid) -> int)
    requires
        s.no_duplicates(),
    ensures
        seq_sum(s, f) == set_sum(s.to_set(), f),
    decreases s.len(),
{
    let g = |acc: int, p: Pid| acc + f(p);
    if s.len() == 0 {
        assert(s.to_set() =~= Set::empty());
        vstd::set::fold::lemma_fold_empty(0int, g);
    } else {
        let r = s.drop_last();
        assert(r.no_duplicates()) by {
            assert forall|i: int, j: int| 0 <= i < r.len() && 0 <= j < r.len() && i != j implies r[i] != r[j] by {
                assert(r[i] == s[i] && r[j] == s[j]);
            }
        }
        lemma_seq_sum_is_set_sum(r, f);
        assert(s =~= r + seq![s.last()]);
        Seq::lemma_to_set_insert_commutes(r, s.last());
        assert(!r.to_set().contains(s.last())) by {
            if r.contains(s.last()) {
                let k = choose|k: int| 0 <= k < r.len() && r[k] == s.last();
                assert(s[k] == s[s.len() - 1]);
            }
        }
        vstd::seq_lib::seq_to_set_is_finite(r);
        assert(vstd::set::fold::is_fun_commutative(g));
        vstd::set::fold::lemma_fold_insert(r.to_set(), 0int, g, s.last());
        assert(seq_sum(s, f) == seq_sum(r, f) + f(s.last()));
    }
}

/// The sums of the members of `fam` fit the rollup's fields.
pub open spec fn sums_fit(nodes: Map<Pid, SnapshotView>, fam: Set<Pid>) -> bool {
    &&& set_sum(fam, count_of(nodes)) <= u32::MAX
    &&& set_sum(fam, cpu_of(nodes)) <= u64::MAX
    &&& set_sum(fam, rss_of(nodes)) <= u64::MAX
    &&& set_sum(fam, threads_of(nodes)) <= u32::MAX
    &&& set_sum(fam, files_of(nodes)) <= u32::MAX
}

/// Each field of `r` is the sum, over the members of `fam` present in the
/// node table, of the member's value.
pub open spec fn sums_are(nodes: Map<Pid, SnapshotView>, fam: Set<Pid>, r: FamilyRollup) -> bool {
    &&& r.process_count == set_sum(fam, count_of(nodes))
    &&& r.cpu_percent_centi == set_sum(fam, cpu_of(nodes))
    &&& r.rss == set_sum(fam, rss_of(nodes))
    &&& r.thread_count == set_sum(fam, threads_of(nodes))
    &&& r.open_file_count == set_sum(fam, files_of(nodes))
}

/// The rollup of `pid`'s family in a process table fits its fields.
pub open spec fn family_fits(nodes: Map<Pid, SnapshotView>, pid: Pid) -> bool {
    sums_fit(nodes, lineage(nodes, pid))
}

/// `r` is the rollup of `pid`'s family in a process table: the sums over
/// `pid` and every process descending from it by parent links.
pub open spec fn is_family_rollup(nodes: Map<Pid, SnapshotView>, pid: Pid, r: FamilyRollup) -> bool {
    sums_are(nodes, lineage(nodes, pid), r)
}

impl ProcessTree {
    /// `pid` and its descendants along the child lists, as a set.
    pub open spec fn family_set(&self, pid: Pid) -> Set<Pid> {
        Set::new(|d: Pid| in_family(self.children@, pid, d))
    }

    /// The family's sums fit the rollup's fields.
    pub open spec fn rollup_fits(&self, pid: Pid) -> bool {
        sums_fit(node_views(self.nodes@), self.family_set(pid))
    }

    /// The rollup of `pid`'s family: each field is the sum, over `pid` and
    /// every descendant present in the node table, of the member's value.
    pub open spec fn is_rollup_of(&self, pid: Pid, r: FamilyRollup) -> bool {
        sums_are(node_views(self.nodes@), self.family_set(pid), r)
    }

    /// Sums CPU utilization, RSS, thread count and open-file count across
    /// `pid` and every descendant. `None` when `pid` is not in the tree: an
    /// absent process is a different fact from one using nothing.
    pub fn aggregate(&self, pid: Pid) -> (r: Option<FamilyRollup>)
        requires
            self.nodes@.contains_key(pid) ==> self.rollup_fits(pid),
        ensures
            !self.nodes@.contains_key(pid) ==> r is None,
            self.nodes@.contains_key(pid) ==> (r matches Some(rollup) && self.is_rollup_of(pid, rollup)),
            self.well_formed() && self.nodes@.contains_key(pid)
                ==> (r matches Some(rollup) && is_family_rollup(node_views(self.nodes@), pid, rollup)),
    {
        if !self.nodes.contains_key(&pid) {
            return None;
        }
        let fam = self.family(pid);
        let ghost nv = node_views(self.nodes@);
        proof {
            if self.well_formed() {
                lemma_family_set_is_lineage(*self, pid);
            }
        }
        let ghost fs = fam@;
        proof {
            assert(fs.to_set() =~= self.family_set(pid));
            lemma_seq_sum_is_set_sum(fs, count_of(nv));
            lemma_seq_sum_is_set_sum(fs, cpu_of(nv));
            lemma_seq_sum_is_set_sum(fs, rss_of(nv));
            lemma_seq_sum_is_set_sum(fs, threads_of(nv));
            lemma_seq_sum_is_set_sum(fs, files_of(nv));
        }
        let mut rollup = FamilyRollup {
            process_count: 0,
            cpu_percent_centi: 0,
            rss: 0,
            thread_count: 0,
            open_file_count: 0,
        };
        let mut i: usize = 0;
        while i < fam.len()
            invariant
                fam@ == fs,
                nv == node_views(self.nodes@),
                i <= fs.len(),
                seq_sum(fs, count_of(nv)) <= u32::MAX,
                seq_sum(fs, cpu_of(nv)) <= u64::MAX,
                seq_sum(fs, rss_of(nv)) <= u64::MAX,
                seq_sum(fs, threads_of(nv)) <= u32::MAX,
                seq_sum(fs, files_of(nv)) <= u32::MAX,
                rollup.process_count == seq_sum(fs.take(i as int), count_of(nv)),
                rollup.cpu_percent_centi == seq_sum(fs.take(i as int), cpu_of(nv)),
                rollup.rss == seq_sum(fs.take(i as int), rss_of(nv)),
                rollup.thread_count == seq_sum(fs.take(i as int), threads_of(nv)),
                rollup.open_file_count == seq_sum(fs.take(i as int), files_of(nv)),
            decreases fs.len() - i,
        {
            let member = fam[i];
            proof {
                lemma_seq_sum_step(fs, count_of(nv), i as int);
                lemma_seq_sum_step(fs, cpu_of(nv), i as int);
                lemma_seq_sum_step(fs, rss_of(nv), i as int);
                lemma_seq_sum_step(fs, threads_of(nv), i as int);
                lemma_seq_sum_step(fs, files_of(nv), i as int);
                lemma_seq_sum_mono(fs, count_of(nv), i + 1);
                lemma_seq_sum_mono(fs, cpu_of(nv), i + 1);
                lemma_seq_sum_mono(fs, rss_of(nv), i + 1);
                lemma_seq_sum_mono(fs, threads_of(nv), i + 1);
                lemma_seq_sum_mono(fs, files_of(nv), i + 1);
            }
            match self.nodes.get(&member) {
                Some(snap) => {
                    assert(nv[member] == snap@);
                    rollup.process_count = rollup.process_count + 1;
                    rollup.cpu_percent_centi = rollup.cpu_percent_centi + snap.cpu.percent_centi;
                    rollup.rss = rollup.rss + snap.memory.rss;
                    rollup.thread_count = rollup.thread_count + snap.thread_count;
                    rollup.open_file_count = rollup.open_file_count + snap.open_file_count;
                },
                None => {},
            }
            i += 1;
        }
        assert(fs.take(fs.len() as int) =~= fs);
        Some(rollup)
    }
}

} // verus!
