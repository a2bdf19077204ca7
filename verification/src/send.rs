//! Sending a magic packet takes four socket operations in a fixed order;
//! the first that fails ends the attempt with the error that belongs to it.
//! This module decides what comes next. Performing the operations is left
//! to the caller, who reports how each one ended.

use vstd::prelude::*;
use crate::error::{MagicPacketError, MagicPacketResult};

verus! {

/// The local address that the sending socket is bound to: every interface,
/// and a port that the system picks.
pub const LOCAL_ADDRESS: &'static str = "0.0.0.0:0";

/// One of the socket operations that make up a send, in the order in which
/// they are performed.
#[derive(Clone, Copy, Debug, PartialEq, Eq, Structural)]
pub enum SendStep {
    /// Open a datagram socket bound to [`LOCAL_ADDRESS`].
    BindSocket,
    /// Set the read timeout of the socket.
    SetReadTimeout,
    /// Allow the socket to send to a broadcast address.
    EnableBroadcast,
    /// Send the packet to the broadcast address as one datagram.
    SendPacket,
}

/// What to do after an operation has ended.
#[derive(Debug)]
pub enum SendProgress {
    /// Perform this operation next.
    Perform(SendStep),
    /// Nothing is left to do; this is the result of the send: the number
    /// of bytes written, or the error of the operation that failed.
    Finished(MagicPacketResult<usize>),
}

/// The operation that a send begins with.
pub open spec fn first_step() -> SendStep {
    SendStep::BindSocket
}

/// The operation that follows `step`, if any.
pub open spec fn step_after(step: SendStep) -> Option<SendStep> {
    match step {
        SendStep::BindSocket => Some(SendStep::SetReadTimeout),
        SendStep::SetReadTimeout => Some(SendStep::EnableBroadcast),
        SendStep::EnableBroadcast => Some(SendStep::SendPacket),
        SendStep::SendPacket => None,
    }
}

/// The error for a failure of `step` that the platform describes as
/// `detail`.
pub open spec fn failure_of(step: SendStep, detail: String) -> MagicPacketError {
    match step {
        SendStep::BindSocket => MagicPacketError::FailedToBindSocket(detail),
        SendStep::SetReadTimeout => MagicPacketError::FailedToSetSocketReadTimeOut(detail),
        SendStep::EnableBroadcast => MagicPacketError::FailedToSetSocketForBroadcast(detail),
        SendStep::SendPacket => MagicPacketError::FailedToSendPacket(detail),
    }
}

/// What follows when `step` has ended with `outcome`. A failure finishes
/// the send with the error of that step. A success leads to the next step;
/// for the last step it finishes the send with the number it reports.
pub open spec fn progress_after(step: SendStep, outcome: Result<usize, String>) -> SendProgress {
    match outcome {
        Err(detail) => SendProgress::Finished(Err(failure_of(step, detail))),
        Ok(written) => match step_after(step) {
            Some(next) => SendProgress::Perform(next),
            None => SendProgress::Finished(Ok(written)),
        },
    }
}

/// The result of a send whose operations would end as given, each one if it
/// is attempted at all: the error of the first operation that fails, else
/// the number of bytes that the last one wrote.
pub open spec fn send_result(
    bind: Result<usize, String>,
    set_read_timeout: Result<usize, String>,
    enable_broadcast: Result<usize, String>,
    send_packet: Result<usize, String>,
) -> MagicPacketResult<usize> {
    match bind {
        Err(detail) => Err(MagicPacketError::FailedToBindSocket(detail)),
        Ok(_) => match set_read_timeout {
            Err(detail) => Err(MagicPacketError::FailedToSetSocketReadTimeOut(detail)),
            Ok(_) => match enable_broadcast {
                Err(detail) => Err(MagicPacketError::FailedToSetSocketForBroadcast(detail)),
                Ok(_) => match send_packet {
                    Err(detail) => Err(MagicPacketError::FailedToSendPacket(detail)),
                    Ok(written) => Ok(written),
                },
            },
        },
    }
}

/// Where a send that stands before `step` ends, when the operations from
/// `step` on end as `outcomes` says, one after the other. `None` when the
/// outcomes run out before the send is finished. Outcomes that follow the
/// one that finishes the send belong to operations that are never
/// performed.
pub open spec fn run_from(step: SendStep, outcomes: Seq<Result<usize, String>>) -> Option<
    MagicPacketResult<usize>,
>
    decreases outcomes.len(),
{
    if outcomes.len() == 0 {
        None
    } else {
        match progress_after(step, outcomes[0]) {
            SendProgress::Finished(result) => Some(result),
            SendProgress::Perform(next) => run_from(next, outcomes.drop_first()),
        }
    }
}

impl SendStep {
    /// The operation that a send begins with.
    pub fn first() -> (step: SendStep)
        ensures
            step == first_step(),
    {
        SendStep::BindSocket
    }

    /// The operation that follows this one, if any.
    pub fn next(self) -> (next: Option<SendStep>)
        ensures
            next == step_after(self),
    {
        match self {
            SendStep::BindSocket => Some(SendStep::SetReadTimeout),
            SendStep::SetReadTimeout => Some(SendStep::EnableBroadcast),
            SendStep::EnableBroadcast => Some(SendStep::SendPacket),
            SendStep::SendPacket => None,
        }
    }

    /// The error for a failure of this operation.
    pub fn failed(self, detail: String) -> (error: MagicPacketError)
        ensures
            error == failure_of(self, detail),
    {
        match self {
            SendStep::BindSocket => MagicPacketError::FailedToBindSocket(detail),
            SendStep::SetReadTimeout => MagicPacketError::FailedToSetSocketReadTimeOut(detail),
            SendStep::EnableBroadcast => MagicPacketError::FailedToSetSocketForBroadcast(detail),
            SendStep::SendPacket => MagicPacketError::FailedToSendPacket(detail),
        }
    }
}

/// Decides what follows when `step` has ended with `outcome`: `Ok` with the
/// number of bytes written, which only the last step reports, or `Err` with
/// the platform's description of the failure.
pub fn advance(step: SendStep, outcome: Result<usize, String>) -> (progress: SendProgress)
    ensures
        progress == progress_after(step, outcome),
{
    match outcome {
        Err(detail) => SendProgress::Finished(Err(step.failed(detail))),
        Ok(written) => match step.next() {
            Some(next) => SendProgress::Perform(next),
            None => SendProgress::Finished(Ok(written)),
        },
    }
}

/// A failure ends the send at once, with the error of the step that failed:
/// no further operation is asked for.
pub proof fn lemma_failure_finishes(step: SendStep, detail: String)
    ensures
        progress_after(step, Err(detail)) == SendProgress::Finished(
            Err(failure_of(step, detail)),
        ),
{
}

/// A send whose socket cannot be bound ends with `FailedToBindSocket` after
/// that one operation, whatever the later operations would have done: the
/// packet is never sent.
pub proof fn lemma_bind_failure_sends_nothing(
    detail: String,
    later: Seq<Result<usize, String>>,
)
    ensures
        progress_after(first_step(), Err(detail)) == SendProgress::Finished(
            Err(MagicPacketError::FailedToBindSocket(detail)),
        ),
        run_from(first_step(), seq![Err(detail)] + later) == Some(
            Err::<usize, MagicPacketError>(MagicPacketError::FailedToBindSocket(detail)),
        ),
{
    let outcomes = seq![Err::<usize, String>(detail)] + later;
    assert(outcomes[0] == Err::<usize, String>(detail));
}

/// A success finishes the send only at the last step; before it, the next
/// step in the fixed order is asked for.
pub proof fn lemma_success_continues(step: SendStep, written: usize)
    ensures
        step != SendStep::SendPacket ==> progress_after(step, Ok(written))
            == SendProgress::Perform(step_after(step).unwrap()),
        step == SendStep::SendPacket ==> progress_after(step, Ok(written))
            == SendProgress::Finished(Ok(written)),
{
}

/// Following the steps from the first one arrives at the result of the
/// send as a whole, for every way the four operations can end.
pub proof fn lemma_run_is_send_result(
    bind: Result<usize, String>,
    set_read_timeout: Result<usize, String>,
    enable_broadcast: Result<usize, String>,
    send_packet: Result<usize, String>,
)
    ensures
        run_from(first_step(), seq![bind, set_read_timeout, enable_broadcast, send_packet])
            == Some(send_result(bind, set_read_timeout, enable_broadcast, send_packet)),
{
    let all = seq![bind, set_read_timeout, enable_broadcast, send_packet];
    let after_bind = seq![set_read_timeout, enable_broadcast, send_packet];
    let after_timeout = seq![enable_broadcast, send_packet];
    let after_broadcast = seq![send_packet];
    assert(all.drop_first() =~= after_bind);
    assert(after_bind.drop_first() =~= after_timeout);
    assert(after_timeout.drop_first() =~= after_broadcast);
    reveal_with_fuel(run_from, 5);
}

} // verus!
