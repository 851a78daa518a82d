//! What the registry needs to know of the machine it runs on.
use vstd::prelude::*;

verus! {

/// The process that listens on a port.
#[derive(Debug, Clone, PartialEq, Eq)]
pub struct ProcessInfo {
    pub pid: u32,
    pub name: String,
}

/// Live state of the machine's sockets. Its answers may change from one
/// call to the next, so nothing is promised of them.
pub trait SocketChecker {
    /// Whether nothing listens on `port` right now.
    fn is_port_free(&self, port: u16) -> bool;

    /// The process that listens on `port`, where it can be found.
    fn get_process_info(&self, port: u16) -> Option<ProcessInfo>;
}

/// `socket`, asked whether `port` is free, answered `free`.
pub open spec fn answered_free<S: SocketChecker + ?Sized>(socket: &S, port: u16, free: bool) -> bool {
    call_ensures(S::is_port_free, (socket, port), free)
}

/// `socket`, asked for the process on `port`, answered `info`.
pub open spec fn answered_process<S: SocketChecker + ?Sized>(
    socket: &S,
    port: u16,
    info: Option<ProcessInfo>,
) -> bool {
    call_ensures(S::get_process_info, (socket, port), info)
}

} // verus!
