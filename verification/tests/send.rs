use magic_packet_builder::send::LOCAL_ADDRESS;
use magic_packet_builder::{advance, MagicPacketError, SendProgress, SendStep};

/// Runs a send whose operations end as `outcomes` says, and reports the
/// operations performed and the result.
fn run(outcomes: Vec<Result<usize, String>>) -> (Vec<SendStep>, Option<Result<usize, MagicPacketError>>) {
    let mut performed = Vec::new();
    let mut step = SendStep::first();
    for outcome in outcomes {
        performed.push(step);
        match advance(step, outcome) {
            SendProgress::Perform(next) => step = next,
            SendProgress::Finished(result) => return (performed, Some(result)),
        }
    }
    (performed, None)
}

fn failure(text: &str) -> Result<usize, String> {
    Err(text.to_string())
}

#[test]
fn socket_is_bound_to_any_interface_and_port() {
    assert_eq!(LOCAL_ADDRESS, "0.0.0.0:0");
}

#[test]
fn steps_come_in_order() {
    assert_eq!(SendStep::first(), SendStep::BindSocket);
    assert_eq!(SendStep::BindSocket.next(), Some(SendStep::SetReadTimeout));
    assert_eq!(SendStep::SetReadTimeout.next(), Some(SendStep::EnableBroadcast));
    assert_eq!(SendStep::EnableBroadcast.next(), Some(SendStep::SendPacket));
    assert_eq!(SendStep::SendPacket.next(), None);
}

#[test]
fn bind_failure_ends_the_send_before_anything_is_sent() {
    let progress = advance(SendStep::first(), failure("address in use"));
    assert!(matches!(
        progress,
        SendProgress::Finished(Err(MagicPacketError::FailedToBindSocket(ref detail))) if detail == "address in use"
    ));
    let (performed, result) = run(vec![failure("address in use"), Ok(0), Ok(0), Ok(102)]);
    assert_eq!(performed, vec![SendStep::BindSocket]);
    assert!(matches!(result, Some(Err(MagicPacketError::FailedToBindSocket(_)))));
}

#[test]
fn timeout_failure_has_its_own_error() {
    let (performed, result) = run(vec![Ok(0), failure("cannot set a 0 duration timeout"), Ok(0), Ok(102)]);
    assert_eq!(performed, vec![SendStep::BindSocket, SendStep::SetReadTimeout]);
    assert!(matches!(
        result,
        Some(Err(MagicPacketError::FailedToSetSocketReadTimeOut(ref detail))) if detail == "cannot set a 0 duration timeout"
    ));
}

#[test]
fn broadcast_failure_has_its_own_error() {
    let (performed, result) = run(vec![Ok(0), Ok(0), failure("permission denied"), Ok(102)]);
    assert_eq!(
        performed,
        vec![SendStep::BindSocket, SendStep::SetReadTimeout, SendStep::EnableBroadcast]
    );
    assert!(matches!(
        result,
        Some(Err(MagicPacketError::FailedToSetSocketForBroadcast(ref detail))) if detail == "permission denied"
    ));
}

#[test]
fn send_failure_has_its_own_error() {
    let (performed, result) = run(vec![Ok(0), Ok(0), Ok(0), failure("invalid socket address")]);
    assert_eq!(performed.len(), 4);
    assert_eq!(performed[3], SendStep::SendPacket);
    assert!(matches!(
        result,
        Some(Err(MagicPacketError::FailedToSendPacket(ref detail))) if detail == "invalid socket address"
    ));
}

#[test]
fn success_reports_the_bytes_written() {
    let (performed, result) = run(vec![Ok(0), Ok(0), Ok(0), Ok(102)]);
    assert_eq!(
        performed,
        vec![
            SendStep::BindSocket,
            SendStep::SetReadTimeout,
            SendStep::EnableBroadcast,
            SendStep::SendPacket
        ]
    );
    assert!(matches!(result, Some(Ok(102))));
}

#[test]
fn numbers_of_earlier_steps_are_not_the_result() {
    let (_, result) = run(vec![Ok(7), Ok(8), Ok(9), Ok(22)]);
    assert!(matches!(result, Some(Ok(22))));
    assert!(matches!(advance(SendStep::BindSocket, Ok(7)), SendProgress::Perform(SendStep::SetReadTimeout)));
    assert!(matches!(advance(SendStep::SendPacket, Ok(0)), SendProgress::Finished(Ok(0))));
}

#[test]
fn send_is_unfinished_while_operations_remain() {
    let (performed, result) = run(vec![Ok(0), Ok(0)]);
    assert_eq!(performed.len(), 2);
    assert!(result.is_none());
}

#[test]
fn failure_of_each_step_maps_to_its_variant() {
    assert!(matches!(
        SendStep::BindSocket.failed("a".to_string()),
        MagicPacketError::FailedToBindSocket(ref d) if d == "a"
    ));
    assert!(matches!(
        SendStep::SetReadTimeout.failed("b".to_string()),
        MagicPacketError::FailedToSetSocketReadTimeOut(ref d) if d == "b"
    ));
    assert!(matches!(
        SendStep::EnableBroadcast.failed("c".to_string()),
        MagicPacketError::FailedToSetSocketForBroadcast(ref d) if d == "c"
    ));
    assert!(matches!(
        SendStep::SendPacket.failed(String::new()),
        MagicPacketError::FailedToSendPacket(ref d) if d.is_empty()
    ));
}

#[test]
fn error_shows_its_kind_and_detail() {
    let error = MagicPacketError::FailedToSendPacket("network is unreachable".to_string());
    assert_eq!(format!("{:?}", error), "FailedToSendPacket(\"network is unreachable\")");
}
