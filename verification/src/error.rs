//! The ways in which sending a magic packet can fail.

use vstd::prelude::*;

verus! {

/// The result of an operation that fails with a [`MagicPacketError`].
pub type MagicPacketResult<T> = Result<T, MagicPacketError>;

/// Why a magic packet could not be sent. Each variant names the socket
/// operation that failed and carries the platform's description of the
/// failure as free-form text.
#[derive(Debug)]
pub enum MagicPacketError {
    /// The datagram socket could not be opened and bound.
    FailedToBindSocket(String),
    /// The read timeout could not be set on the socket.
    FailedToSetSocketReadTimeOut(String),
    /// Broadcasting could not be enabled on the socket.
    FailedToSetSocketForBroadcast(String),
    /// The datagram could not be sent.
    FailedToSendPacket(String),
}

} // verus!
