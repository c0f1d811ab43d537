//! Sending a signal to a process is the one action that changes system
//! state, so it is confirmed first: the wording of the confirmation and
//! the reading of the user's answer.

use vstd::prelude::*;

use crate::process_control::{signal_name, Signal};
use crate::text::{lowercase_of, push_signed, signed_decimal, to_lowercase, trim, trimmed};
use crate::Pid;

verus! {

/// The warning added to a confirmation for a signal the process cannot
/// catch or ignore; empty for the others.
pub open spec fn uncatchable_note(signal: Signal) -> Seq<char> {
    if signal == Signal::Kill || signal == Signal::Stop {
        " This cannot be caught or ignored by the process."@
    } else {
        ""@
    }
}

fn push_uncatchable_note(out: &mut String, signal: Signal)
    ensures
        final(out)@ == old(out)@ + uncatchable_note(signal),
{
    if signal.is_uncatchable() {
        out.append(" This cannot be caught or ignored by the process.");
    } else {
        proof { reveal_strlit(""); }
        assert(final(out)@ =~= old(out)@ + uncatchable_note(signal));
    }
}

/// The terminal prompt before sending `signal` to the process `name`.
pub open spec fn kill_prompt_text(signal: Signal, name: Seq<char>, pid: Pid) -> Seq<char> {
    "Send "@ + signal_name(signal) + " to "@ + name + " (pid "@ + signed_decimal(pid as int) + ")?"@
        + uncatchable_note(signal) + " [y/N] "@
}

/// The terminal prompt before sending `signal` to the process `name`
/// with pid `pid`.
pub fn kill_prompt(signal: Signal, name: &str, pid: Pid) -> (p: String)
    ensures
        p@ == kill_prompt_text(signal, name@, pid),
{
    let mut p = String::from_str("Send ");
    p.append(signal.name());
    p.append(" to ");
    p.append(name);
    p.append(" (pid ");
    push_signed(&mut p, pid as i64);
    p.append(")?");
    push_uncatchable_note(&mut p, signal);
    p.append(" [y/N] ");
    assert(p@ =~= kill_prompt_text(signal, name@, pid));
    p
}

/// The inline confirmation shown before sending `signal` to `pid`.
pub open spec fn signal_confirmation_text(signal: Signal, pid: Pid) -> Seq<char> {
    "Send "@ + signal_name(signal) + " to pid "@ + signed_decimal(pid as int) + "?"@ + uncatchable_note(signal)
}

/// The inline confirmation shown before sending `signal` to `pid`.
pub fn signal_confirmation(signal: Signal, pid: Pid) -> (t: String)
    ensures
        t@ == signal_confirmation_text(signal, pid),
{
    let mut t = String::from_str("Send ");
    t.append(signal.name());
    t.append(" to pid ");
    push_signed(&mut t, pid as i64);
    t.append("?");
    push_uncatchable_note(&mut t, signal);
    assert(t@ =~= signal_confirmation_text(signal, pid));
    t
}

/// An answer confirms when, trimmed and lowercased, it is `y` or `yes`;
/// anything else, the empty answer included, declines.
pub open spec fn is_confirmation(answer: Seq<char>) -> bool {
    let a = lowercase_of(trimmed(answer));
    a == "y"@ || a == "yes"@
}

/// Whether the user's answer to a confirmation prompt confirms.
pub fn confirms(answer: &str) -> (b: bool)
    ensures
        b == is_confirmation(answer@),
{
    let a = to_lowercase(trim(answer));
    let y = String::from_str("y");
    let yes = String::from_str("yes");
    a == y || a == yes
}

} // verus!
