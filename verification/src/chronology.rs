//! The chronological view of a process: its recorded lifecycle events
//! merged with the journal entries of its unit, ordered by time. Events
//! carry seconds, journal entries microseconds; both are compared in
//! microseconds, and entries at the same instant keep their order, events
//! first.

use vstd::prelude::*;
use vstd::relations::{sorted_by, total_ordering};

use crate::log_entry::LogEntry;
use crate::text::{push_signed, signed_decimal};
use crate::timeline::TimelineEvent;
use crate::Pid;

verus! {

/// Microseconds per second.
pub const MICROS_PER_SEC: i64 = 1_000_000;

/// Every event's time, in microseconds, fits an `i64`.
pub open spec fn event_times_fit(events: Seq<TimelineEvent>) -> bool {
    forall|i: int| 0 <= i < events.len() ==> i64::MIN <= #[trigger] events[i].at * MICROS_PER_SEC <= i64::MAX
}

/// The time and position of every entry of `events` followed by
/// `journal`: events at their second in microseconds, journal entries at
/// their microsecond.
pub open spec fn entry_keys(events: Seq<TimelineEvent>, journal: Seq<LogEntry>) -> Seq<(i64, usize)> {
    Seq::new(
        events.len() + journal.len(),
        |p: int|
            if p < events.len() {
                ((events[p].at * MICROS_PER_SEC) as i64, p as usize)
            } else {
                (journal[p - events.len()].at_us, p as usize)
            },
    )
}

/// Earlier time first; at the same time, earlier position first.
pub open spec fn time_then_position() -> spec_fn((i64, usize), (i64, usize)) -> bool {
    |a: (i64, usize), b: (i64, usize)| a.0 < b.0 || (a.0 == b.0 && a.1 <= b.1)
}

/// The entries in chronological order, ties kept in their given order.
pub open spec fn chronological(events: Seq<TimelineEvent>, journal: Seq<LogEntry>) -> Seq<(i64, usize)> {
    entry_keys(events, journal).sort_by(time_then_position())
}

proof fn lemma_order_total()
    ensures
        total_ordering(time_then_position()),
{
    let le = time_then_position();
    assert(vstd::relations::reflexive(le)) by {
        assert forall|x: (i64, usize)| #[trigger] le(x, x) by {}
    }
    assert(vstd::relations::antisymmetric(le)) by {
        assert forall|x: (i64, usize), y: (i64, usize)| #[trigger] le(x, y) && #[trigger] le(y, x) implies x == y by {}
    }
    assert(vstd::relations::transitive(le)) by {
        assert forall|x: (i64, usize), y: (i64, usize), z: (i64, usize)| #[trigger] le(x, y) && #[trigger] le(y, z)
            implies le(x, z) by {}
    }
    assert(vstd::relations::strongly_connected(le)) by {
        assert forall|x: (i64, usize), y: (i64, usize)| #[trigger] le(x, y) || #[trigger] le(y, x) by {}
    }
}

/// The time of the `p`-th entry.
fn entry_time(events: &Vec<TimelineEvent>, journal: &Vec<LogEntry>, p: usize) -> (k: (i64, usize))
    requires
        event_times_fit(events@),
        p < events@.len() + journal@.len(),
    ensures
        k == entry_keys(events@, journal@)[p as int],
{
    if p < events.len() {
        (events[p].at * MICROS_PER_SEC, p)
    } else {
        (journal[p - events.len()].at_us, p)
    }
}

/// The positions and times of the entries in chronological order (see
/// `chronological`).
pub fn chronological_order(events: &Vec<TimelineEvent>, journal: &Vec<LogEntry>) -> (r: Vec<(i64, usize)>)
    requires
        event_times_fit(events@),
        events@.len() + journal@.len() <= usize::MAX,
    ensures
        r@ == chronological(events@, journal@),
{
    broadcast use vstd::seq_lib::group_to_multiset_ensures;
    broadcast use vstd::multiset::group_multiset_axioms;
    let ghost le = time_then_position();
    let ghost keys = entry_keys(events@, journal@);
    let n = events.len() + journal.len();
    let mut out: Vec<(i64, usize)> = Vec::new();
    let mut i: usize = 0;
    assert(keys.take(0) =~= Seq::<(i64, usize)>::empty());
    while i < n
        invariant
            n == keys.len(),
            i <= n,
            le == time_then_position(),
            keys == entry_keys(events@, journal@),
            event_times_fit(events@),
            sorted_by(out@, le),
            out@.to_multiset() == keys.take(i as int).to_multiset(),
            forall|q: int| 0 <= q < out@.len() ==> (#[trigger] out@[q]).1 < i,
        decreases n - i,
    {
        let x = entry_time(events, journal, i);
        let mut j: usize = 0;
        while j < out.len() && out[j].0 <= x.0
            invariant
                j <= out@.len(),
                forall|k: int| 0 <= k < j ==> out@[k].0 <= x.0,
            decreases out@.len() - j,
        {
            j += 1;
        }
        let ghost before = out@;
        out.insert(j, x);
        proof {
            assert(out@ == before.insert(j as int, x));
            assert forall|a: int, b: int| 0 <= a < b < out@.len() implies #[trigger] le(out@[a], out@[b]) by {
                if b < j {
                    assert(le(before[a], before[b]));
                } else if b == j {
                    assert(out@[a] == before[a]);
                    assert(before[a].0 <= x.0 && before[a].1 < i);
                } else if a == j {
                    assert(out@[b] == before[b - 1]);
                    if j < before.len() {
                        assert(!(before[j as int].0 <= x.0));
                        if b - 1 > j {
                            assert(le(before[j as int], before[b - 1]));
                        }
                    }
                } else if a < j {
                    assert(out@[a] == before[a] && out@[b] == before[b - 1]);
                    assert(le(before[a], before[b - 1]));
                } else {
                    assert(out@[a] == before[a - 1] && out@[b] == before[b - 1]);
                    assert(le(before[a - 1], before[b - 1]));
                }
            }
            assert(out@[j as int] == x);
            vstd::seq_lib::to_multiset_remove(out@, j as int);
            assert(out@.remove(j as int) =~= before);
            out@.to_multiset_ensures();
            assert(out@.contains(x));
            assert(out@.to_multiset() =~= before.to_multiset().insert(x));
            assert(keys.take(i + 1) =~= keys.take(i as int).push(x));
            vstd::seq_lib::to_multiset_build(keys.take(i as int), x);
            assert forall|q: int| 0 <= q < out@.len() implies (#[trigger] out@[q]).1 < i + 1 by {
                if q < j {
                    assert(out@[q] == before[q]);
                } else if q > j {
                    assert(out@[q] == before[q - 1]);
                }
            }
        }
        i += 1;
    }
    proof {
        assert(keys.take(n as int) =~= keys);
        lemma_order_total();
        keys.lemma_sort_by_ensures(le);
        vstd::seq_lib::lemma_sorted_unique(out@, keys.sort_by(le), le);
    }
    out
}

/// Whole seconds of a microsecond time, rounded toward zero.
pub open spec fn whole_secs(at_us: i64) -> int {
    let t = at_us as int;
    if t >= 0 {
        t / (MICROS_PER_SEC as int)
    } else {
        -((-t) / (MICROS_PER_SEC as int))
    }
}

/// The printed line of one entry: `[<secs>] EVENT  <description>` for an
/// event, `[<secs>] LOG    <message>` for a journal entry.
pub open spec fn entry_line(events: Seq<TimelineEvent>, journal: Seq<LogEntry>, k: (i64, usize)) -> Seq<char> {
    let head = "["@ + signed_decimal(whole_secs(k.0));
    if k.1 < events.len() {
        head + "] EVENT  "@ + events[k.1 as int].description@
    } else {
        head + "] LOG    "@ + journal[k.1 - events.len()].message@
    }
}

/// The printed lines of the chronological view of `pid`: one per entry in
/// chronological order, or a single line saying there is nothing yet.
pub open spec fn chronology_text(pid: Pid, events: Seq<TimelineEvent>, journal: Seq<LogEntry>) -> Seq<Seq<char>> {
    let order = chronological(events, journal);
    if order.len() == 0 {
        seq!["(no recorded lifecycle events or journal entries for pid "@ + signed_decimal(pid as int) + " yet)"@]
    } else {
        order.map_values(|k: (i64, usize)| entry_line(events, journal, k))
    }
}

/// The lines of the chronological view of `pid` (see `chronology_text`).
pub fn chronology_lines(pid: Pid, events: &Vec<TimelineEvent>, journal: &Vec<LogEntry>) -> (lines: Vec<String>)
    requires
        event_times_fit(events@),
        events@.len() + journal@.len() <= usize::MAX,
    ensures
        lines@.map_values(|l: String| l@) == chronology_text(pid, events@, journal@),
{
    broadcast use vstd::seq_lib::group_to_multiset_ensures;
    let order = chronological_order(events, journal);
    let ghost keys = entry_keys(events@, journal@);
    let mut lines: Vec<String> = Vec::new();
    if order.len() == 0 {
        let mut l = String::from_str("(no recorded lifecycle events or journal entries for pid ");
        push_signed(&mut l, pid as i64);
        l.append(" yet)");
        lines.push(l);
        assert(lines@.map_values(|l: String| l@) =~= chronology_text(pid, events@, journal@));
        return lines;
    }
    proof {
        lemma_order_total();
        keys.lemma_sort_by_ensures(time_then_position());
    }
    let mut i: usize = 0;
    while i < order.len()
        invariant
            i <= order@.len(),
            order@ == chronological(events@, journal@),
            keys == entry_keys(events@, journal@),
            forall|x: (i64, usize)| #[trigger] order@.contains(x) ==> keys.contains(x),
            lines@.map_values(|l: String| l@) == order@.take(i as int).map_values(
                |k: (i64, usize)| entry_line(events@, journal@, k),
            ),
        decreases order@.len() - i,
    {
        let k = order[i];
        assert(order@.contains(k));
        assert(keys.contains(k));
        let p = k.1;
        assert(p < events@.len() + journal@.len()) by {
            let w = choose|w: int| 0 <= w < keys.len() && keys[w] == k;
        }
        let secs: i64 = k.0 / MICROS_PER_SEC;
        assert(secs == whole_secs(k.0));
        let mut l = String::from_str("[");
        push_signed(&mut l, secs);
        if p < events.len() {
            l.append("] EVENT  ");
            l.append(events[p].description.as_str());
        } else {
            l.append("] LOG    ");
            l.append(journal[p - events.len()].message.as_str());
        }
        let ghost before = lines@;
        lines.push(l);
        proof {
            assert(l@ =~= entry_line(events@, journal@, k));
            assert(order@.take(i + 1) =~= order@.take(i as int).push(k));
            assert(lines@.map_values(|l: String| l@) =~= before.map_values(|l: String| l@).push(l@));
        }
        i += 1;
    }
    assert(order@.take(order@.len() as int) =~= order@);
    lines
}

/// The chronological view lists every event and every journal entry
/// exactly once, in order of time, entries at the same time in their
/// given order (events before journal entries).
pub proof fn chronology_lists_every_entry_once_in_time_order(events: Seq<TimelineEvent>, journal: Seq<LogEntry>)
    requires
        events.len() + journal.len() <= usize::MAX,
    ensures
        chronological(events, journal).len() == events.len() + journal.len(),
        chronological(events, journal).to_multiset() == entry_keys(events, journal).to_multiset(),
        forall|a: int, b: int| 0 <= a < b < chronological(events, journal).len() ==> {
            let x = #[trigger] chronological(events, journal)[a];
            let y = #[trigger] chronological(events, journal)[b];
            x.0 < y.0 || (x.0 == y.0 && x.1 < y.1)
        },
{
    broadcast use vstd::seq_lib::group_to_multiset_ensures;
    broadcast use vstd::multiset::group_multiset_axioms;
    let keys = entry_keys(events, journal);
    let out = chronological(events, journal);
    lemma_order_total();
    keys.lemma_sort_by_ensures(time_then_position());
    assert(out.len() == out.to_multiset().len());
    assert(keys.len() == keys.to_multiset().len());
    assert(keys.no_duplicates()) by {
        assert forall|i: int, j: int| 0 <= i < keys.len() && 0 <= j < keys.len() && i != j implies keys[i] != keys[j] by {
            assert(keys[i].1 == i && keys[j].1 == j);
        }
    }
    keys.lemma_multiset_has_no_duplicates();
    assert forall|a: int, b: int| 0 <= a < b < out.len() implies {
        let x = #[trigger] out[a];
        let y = #[trigger] out[b];
        x.0 < y.0 || (x.0 == y.0 && x.1 < y.1)
    } by {
        assert(time_then_position()(out[a], out[b]));
        if out[a] == out[b] {
            let x = out[a];
            assert(out.remove(b)[a] == x);
            assert(out.remove(b).contains(x));
            vstd::seq_lib::to_multiset_remove(out, b);
            out.remove(b).to_multiset_ensures();
            assert(out.remove(b).to_multiset().count(x) > 0);
            assert(out.to_multiset().remove(x).count(x) > 0);
            assert(out.to_multiset().count(x) >= 2);
            assert(keys.to_multiset().contains(x));
            assert(keys.to_multiset().count(x) == 1);
        }
    }
}

} // verus!
