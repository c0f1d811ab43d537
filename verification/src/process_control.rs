use vstd::prelude::*;

verus! {

/// The POSIX signals that can be sent to a process: a small, closed set of
/// the common process-control signals.
#[derive(Debug, Clone, Copy, PartialEq, Eq, Structural)]
pub enum Signal {
    /// Polite request to terminate; the process can catch/ignore it.
    Term,
    /// Immediate, unblockable termination by the kernel.
    Kill,
    /// Hangup, traditionally "reload config" for daemons.
    Hup,
    /// Interrupt (what Ctrl-C sends).
    Int,
    /// Quit with a core dump.
    Quit,
    Usr1,
    Usr2,
    /// Suspend the process (resumed with `Cont`).
    Stop,
    /// Resume a stopped process.
    Cont,
}

/// The POSIX name of a signal.
pub open spec fn signal_name(s: Signal) -> Seq<char> {
    match s {
        Signal::Term => "SIGTERM"@,
        Signal::Kill => "SIGKILL"@,
        Signal::Hup => "SIGHUP"@,
        Signal::Int => "SIGINT"@,
        Signal::Quit => "SIGQUIT"@,
        Signal::Usr1 => "SIGUSR1"@,
        Signal::Usr2 => "SIGUSR2"@,
        Signal::Stop => "SIGSTOP"@,
        Signal::Cont => "SIGCONT"@,
    }
}

impl Signal {
    /// Whether the target process cannot catch, block or ignore this
    /// signal: only `Kill` and `Stop`.
    pub fn is_uncatchable(self) -> (b: bool)
        ensures
            b == (self == Signal::Kill || self == Signal::Stop),
    {
        match self {
            Signal::Kill | Signal::Stop => true,
            _ => false,
        }
    }

    /// The POSIX name of this signal, e.g. `"SIGTERM"`.
    pub fn name(self) -> (n: &'static str)
        ensures
            n@ == signal_name(self),
    {
        match self {
            Signal::Term => "SIGTERM",
            Signal::Kill => "SIGKILL",
            Signal::Hup => "SIGHUP",
            Signal::Int => "SIGINT",
            Signal::Quit => "SIGQUIT",
            Signal::Usr1 => "SIGUSR1",
            Signal::Usr2 => "SIGUSR2",
            Signal::Stop => "SIGSTOP",
            Signal::Cont => "SIGCONT",
        }
    }
}

} // verus!
