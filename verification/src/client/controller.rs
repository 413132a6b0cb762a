use vstd::prelude::*;

verus! {

/// The settings a client starts with: the port to listen on, the most peers to be
/// connected to at once, whether to keep sharing once done, and whether to print progress.
#[derive(Debug, Clone)]
pub struct ControllerConfig {
    pub listen_port: u16,
    pub max_peers: usize,
    pub seed: bool,
    pub print_output: bool,
}

/// The poll token of the listening TCP socket (the largest is reserved by the poller).
pub const TCP_LISTENER: usize = usize::MAX - 1;

/// The poll token of the signal that the disk answered.
pub const DISK_MESSAGE: usize = usize::MAX - 2;

/// The poll token of the signal that the tracker answered.
pub const TRACKER_MESSAGE: usize = usize::MAX - 3;

/// The poll token of the signal to stop.
pub const STOP_MESSAGE: usize = usize::MAX - 4;

/// The poll token of the uTP socket.
pub const UTP_SOCKET: usize = usize::MAX - 5;

/// What the controller does with a poll event.
#[derive(Debug, Clone, Copy, PartialEq, Eq)]
pub enum PollAction {
    /// Accept the TCP connections waiting on the listener.
    AcceptTcp,
    /// Handle the answers of the disk.
    HandleDisk,
    /// Handle the answers of the tracker.
    HandleTracker,
    /// Stop running.
    Stop,
    /// Handle the packets waiting on the uTP socket.
    HandleUtp,
    /// Handle the TCP connection registered under `token`.
    HandleConnection { token: usize },
}

/// The action for an event of the poll token `token`: each of the controller's own tokens
/// has its action, and any other token is a TCP connection's.
pub open spec fn spec_poll_action(token: usize) -> PollAction {
    if token == TCP_LISTENER {
        PollAction::AcceptTcp
    } else if token == DISK_MESSAGE {
        PollAction::HandleDisk
    } else if token == TRACKER_MESSAGE {
        PollAction::HandleTracker
    } else if token == STOP_MESSAGE {
        PollAction::Stop
    } else if token == UTP_SOCKET {
        PollAction::HandleUtp
    } else {
        PollAction::HandleConnection { token }
    }
}

/// What the controller does with an event of the poll token `token`; the run loop stops
/// on `Stop` and otherwise carries the action out.
pub fn poll_action(token: usize) -> (r: PollAction)
    ensures
        r == spec_poll_action(token),
{
    if token == TCP_LISTENER {
        PollAction::AcceptTcp
    } else if token == DISK_MESSAGE {
        PollAction::HandleDisk
    } else if token == TRACKER_MESSAGE {
        PollAction::HandleTracker
    } else if token == STOP_MESSAGE {
        PollAction::Stop
    } else if token == UTP_SOCKET {
        PollAction::HandleUtp
    } else {
        PollAction::HandleConnection { token }
    }
}

} // verus!
