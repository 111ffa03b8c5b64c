use fuchsia_support::power::{power_action, PowerAction, PowerCommand, PowerRequest};

#[test]
fn reboot_request_reboots_then_acknowledges() {
    assert_eq!(
        power_action(&PowerCommand::HandleRequest(PowerRequest::Reboot)),
        PowerAction::RebootThenAcknowledge
    );
}

#[test]
fn other_requests_are_unimplemented() {
    assert_eq!(
        power_action(&PowerCommand::HandleRequest(PowerRequest::Other)),
        PowerAction::RejectUnimplemented
    );
}

#[test]
fn other_commands_are_ignored() {
    assert_eq!(power_action(&PowerCommand::Other), PowerAction::Ignore);
}
