use vstd::prelude::*;

verus! {

#[derive(Debug, Clone, Copy, PartialEq, Eq, Structural)]
pub enum Protocol {
    Tcp,
    Tcp6,
    Udp,
    Udp6,
    Unix,
}

/// TCP connection state, from `/proc/net/tcp{,6}`'s hex `st` field;
/// `Unknown` for UDP/Unix sockets and unrecognized codes.
#[derive(Debug, Clone, Copy, PartialEq, Eq, Structural)]
pub enum ConnectionState {
    Established,
    SynSent,
    SynRecv,
    FinWait1,
    FinWait2,
    TimeWait,
    Close,
    CloseWait,
    LastAck,
    Listen,
    Closing,
    Unknown,
}

/// The state a `/proc/net/tcp` `st` code denotes.
pub open spec fn state_of_hex(value: u8) -> ConnectionState {
    if value == 0x01 {
        ConnectionState::Established
    } else if value == 0x02 {
        ConnectionState::SynSent
    } else if value == 0x03 {
        ConnectionState::SynRecv
    } else if value == 0x04 {
        ConnectionState::FinWait1
    } else if value == 0x05 {
        ConnectionState::FinWait2
    } else if value == 0x06 {
        ConnectionState::TimeWait
    } else if value == 0x07 {
        ConnectionState::Close
    } else if value == 0x08 {
        ConnectionState::CloseWait
    } else if value == 0x09 {
        ConnectionState::LastAck
    } else if value == 0x0A {
        ConnectionState::Listen
    } else if value == 0x0B {
        ConnectionState::Closing
    } else {
        ConnectionState::Unknown
    }
}

impl ConnectionState {
    /// Parses the hex `st` field used by `/proc/net/tcp{,6}`.
    pub fn from_proc_hex(value: u8) -> (state: Self)
        ensures
            state == state_of_hex(value),
    {
        match value {
            0x01 => ConnectionState::Established,
            0x02 => ConnectionState::SynSent,
            0x03 => ConnectionState::SynRecv,
            0x04 => ConnectionState::FinWait1,
            0x05 => ConnectionState::FinWait2,
            0x06 => ConnectionState::TimeWait,
            0x07 => ConnectionState::Close,
            0x08 => ConnectionState::CloseWait,
            0x09 => ConnectionState::LastAck,
            0x0A => ConnectionState::Listen,
            0x0B => ConnectionState::Closing,
            _ => ConnectionState::Unknown,
        }
    }
}

/// One network connection or listening socket owned by a process.
#[derive(Debug, Clone, PartialEq)]
pub struct NetworkConnection {
    pub protocol: Protocol,
    pub local_addr: String,
    pub remote_addr: String,
    pub state: ConnectionState,
    /// Socket inode, matched against the process's `fd/*` socket links.
    pub inode: u64,
}

} // verus!
