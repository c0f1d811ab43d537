//! Sequence facts shared by the tree, intelligence and investigation
//! modules, and the ascending sort of pid lists.

use vstd::prelude::*;
use vstd::relations::{sorted_by, total_ordering};

use crate::Pid;

verus! {

/// Filtering a sequence without duplicates leaves a sequence without
/// duplicates.
pub proof fn lemma_filter_no_dup<A>(s: Seq<A>, p: spec_fn(A) -> bool)
    requires
        s.no_duplicates(),
    ensures
        s.filter(p).no_duplicates(),
    decreases s.len(),
{
    reveal(Seq::filter);
    if s.len() > 0 {
        let r = s.drop_last();
        assert(r.no_duplicates()) by {
            assert forall|i: int, j: int| 0 <= i < r.len() && 0 <= j < r.len() && i != j implies r[i] != r[j] by {
                assert(r[i] == s[i] && r[j] == s[j]);
            }
        }
        lemma_filter_no_dup(r, p);
        if p(s.last()) {
            let f = r.filter(p);
            if f.contains(s.last()) {
                r.lemma_filter_contains_rev(p, s.last());
                let k = choose|k: int| 0 <= k < r.len() && r[k] == s.last();
                assert(s[k] == s[s.len() - 1]);
            }
            lemma_push_no_dup(f, s.last());
        }
    }
}

/// Pushing an element that is absent keeps a sequence duplicate-free.
pub proof fn lemma_push_no_dup<A>(s: Seq<A>, x: A)
    requires
        s.no_duplicates(),
        !s.contains(x),
    ensures
        s.push(x).no_duplicates(),
{
    let t = s.push(x);
    assert forall|i: int, j: int| 0 <= i < t.len() && 0 <= j < t.len() && i != j implies t[i] != t[j] by {
        if i == s.len() {
            assert(t[j] == s[j]);
        } else if j == s.len() {
            assert(t[i] == s[i]);
        } else {
            assert(t[i] == s[i] && t[j] == s[j]);
        }
    }
}

/// The ascending order on pids.
pub open spec fn pid_le() -> spec_fn(Pid, Pid) -> bool {
    |a: Pid, b: Pid| a <= b
}

/// `s` in ascending order.
pub open spec fn sorted_pids(s: Seq<Pid>) -> Seq<Pid> {
    s.sort_by(pid_le())
}

proof fn lemma_pid_le_total()
    ensures
        total_ordering(pid_le()),
{
    let le = pid_le();
    assert(vstd::relations::reflexive(le)) by {
        assert forall|x: Pid| #[trigger] le(x, x) by {}
    }
    assert(vstd::relations::antisymmetric(le)) by {
        assert forall|x: Pid, y: Pid| #[trigger] le(x, y) && #[trigger] le(y, x) implies x == y by {}
    }
    assert(vstd::relations::transitive(le)) by {
        assert forall|x: Pid, y: Pid, z: Pid| #[trigger] le(x, y) && #[trigger] le(y, z) implies le(x, z) by {}
    }
    assert(vstd::relations::strongly_connected(le)) by {
        assert forall|x: Pid, y: Pid| #[trigger] le(x, y) || #[trigger] le(y, x) by {}
    }
}

/// A sorted sequence with the same elements as `s` is `s` sorted.
pub proof fn lemma_is_sorted_pids(out: Seq<Pid>, s: Seq<Pid>)
    requires
        sorted_by(out, pid_le()),
        out.to_multiset() == s.to_multiset(),
    ensures
        out == sorted_pids(s),
{
    lemma_pid_le_total();
    s.lemma_sort_by_ensures(pid_le());
    vstd::seq_lib::lemma_sorted_unique(out, sorted_pids(s), pid_le());
}

/// Sorting keeps exactly the elements of `s`.
pub proof fn lemma_sorted_pids_elements(s: Seq<Pid>)
    ensures
        sorted_pids(s).to_multiset() == s.to_multiset(),
        sorted_pids(s).len() == s.len(),
        forall|x: Pid| #[trigger] sorted_pids(s).contains(x) <==> s.contains(x),
        sorted_by(sorted_pids(s), pid_le()),
{
    broadcast use vstd::seq_lib::group_to_multiset_ensures;
    lemma_pid_le_total();
    s.lemma_sort_by_ensures(pid_le());
    assert(sorted_pids(s).len() == sorted_pids(s).to_multiset().len());
    assert forall|x: Pid| #[trigger] sorted_pids(s).contains(x) <==> s.contains(x) by {
        assert(sorted_pids(s).contains(x) <==> sorted_pids(s).to_multiset().count(x) > 0);
        assert(s.contains(x) <==> s.to_multiset().count(x) > 0);
    }
}

/// A copy of `v` in ascending order.
pub fn sorted_copy(v: &Vec<Pid>) -> (r: Vec<Pid>)
    ensures
        r@ == sorted_pids(v@),
{
    broadcast use vstd::seq_lib::group_to_multiset_ensures;
    broadcast use vstd::multiset::group_multiset_axioms;
    let ghost le = pid_le();
    let mut out: Vec<Pid> = Vec::new();
    let mut i: usize = 0;
    assert(v@.take(0) =~= Seq::<Pid>::empty());
    while i < v.len()
        invariant
            i <= v@.len(),
            le == pid_le(),
            sorted_by(out@, le),
            out@.to_multiset() == v@.take(i as int).to_multiset(),
        decreases v@.len() - i,
    {
        let x = v[i];
        let mut j: usize = 0;
        while j < out.len() && out[j] <= x
            invariant
                j <= out@.len(),
                forall|k: int| 0 <= k < j ==> out@[k] <= x,
            decreases out@.len() - j,
        {
            j += 1;
        }
        let ghost before = out@;
        out.insert(j, x);
        proof {
            assert(out@ == before.insert(j as int, x));
            assert forall|a: int, b: int| 0 <= a < b < out@.len() implies #[trigger] le(out@[a], out@[b]) by {
                if b < j {
                    assert(le(before[a], before[b]));
                } else if b == j {
                    assert(out@[a] == before[a]);
                } else if a == j {
                    assert(out@[b] == before[b - 1]);
                    if j < before.len() {
                        assert(!(before[j as int] <= x));
                        if b - 1 > j {
                            assert(le(before[j as int], before[b - 1]));
                        }
                    }
                } else if a < j {
                    assert(out@[a] == before[a] && out@[b] == before[b - 1]);
                    assert(le(before[a], before[b - 1]));
                } else {
                    assert(out@[a] == before[a - 1] && out@[b] == before[b - 1]);
                    assert(le(before[a - 1], before[b - 1]));
                }
            }
            assert(out@.remove(j as int) =~= before);
            assert(out@[j as int] == x);
            vstd::seq_lib::to_multiset_remove(out@, j as int);
            out@.to_multiset_ensures();
            assert(out@.contains(x));
            assert(out@.to_multiset().count(x) > 0);
            assert(out@.to_multiset() =~= before.to_multiset().insert(x));
            assert(v@.take(i + 1) =~= v@.take(i as int).push(x));
            vstd::seq_lib::to_multiset_build(v@.take(i as int), x);
            assert(v@.take(i + 1).to_multiset() =~= v@.take(i as int).to_multiset().insert(x));
        }
        i += 1;
    }
    proof {
        assert(v@.take(v@.len() as int) =~= v@);
        lemma_is_sorted_pids(out@, v@);
    }
    out
}

/// Two duplicate-free lists with the same members sort alike.
pub proof fn lemma_same_members_same_sort(a: Seq<Pid>, b: Seq<Pid>)
    requires
        a.no_duplicates(),
        b.no_duplicates(),
        forall|x: Pid| #[trigger] a.contains(x) <==> b.contains(x),
    ensures
        sorted_pids(a) == sorted_pids(b),
{
    broadcast use vstd::seq_lib::group_to_multiset_ensures;
    broadcast use vstd::multiset::group_multiset_axioms;
    a.lemma_multiset_has_no_duplicates();
    b.lemma_multiset_has_no_duplicates();
    assert forall|x: Pid| a.to_multiset().count(x) == b.to_multiset().count(x) by {
        if a.contains(x) {
            assert(a.to_multiset().contains(x));
            assert(b.to_multiset().contains(x));
        } else {
            assert(!b.contains(x));
        }
    }
    assert(a.to_multiset() =~= b.to_multiset());
    lemma_sorted_pids_elements(a);
    lemma_is_sorted_pids(sorted_pids(a), b);
}

} // verus!
