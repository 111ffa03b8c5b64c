//! The decisions of the power setting controller.
//!
//! The controller receives commands one at a time; for each it reboots the
//! device and acknowledges, rejects the request as unimplemented, or ignores
//! the command. Receiving, rebooting and responding are left to the caller.
use vstd::prelude::*;

verus! {

/// The setting request carried by a command, as far as the power
/// controller tells requests apart.
#[derive(Copy, Clone, Debug, PartialEq, Eq, Structural)]
pub enum PowerRequest {
    Reboot,
    /// Any request that is not a reboot.
    Other,
}

/// A command sent to the power controller.
#[derive(Copy, Clone, Debug, PartialEq, Eq, Structural)]
pub enum PowerCommand {
    /// A setting request, to be answered on its responder.
    HandleRequest(PowerRequest),
    /// Any other command.
    Other,
}

/// What the controller does for one command.
#[derive(Copy, Clone, Debug, PartialEq, Eq, Structural)]
pub enum PowerAction {
    /// Reboot the device, then answer the request with success and no
    /// setting.
    RebootThenAcknowledge,
    /// Answer the request with an "unimplemented request" error for the
    /// power setting.
    RejectUnimplemented,
    /// Do nothing: the command is not supported.
    Ignore,
}

pub open spec fn spec_power_action(command: PowerCommand) -> PowerAction {
    match command {
        PowerCommand::HandleRequest(PowerRequest::Reboot) => PowerAction::RebootThenAcknowledge,
        PowerCommand::HandleRequest(PowerRequest::Other) => PowerAction::RejectUnimplemented,
        PowerCommand::Other => PowerAction::Ignore,
    }
}

/// Decides what the power controller does for `command`.
pub fn power_action(command: &PowerCommand) -> (a: PowerAction)
    ensures
        a == spec_power_action(*command),
{
    match command {
        PowerCommand::HandleRequest(request) => match request {
            PowerRequest::Reboot => PowerAction::RebootThenAcknowledge,
            PowerRequest::Other => PowerAction::RejectUnimplemented,
        },
        PowerCommand::Other => PowerAction::Ignore,
    }
}

/// Every setting request is answered, whatever it is; only other commands
/// go unanswered, and only a reboot request reboots.
pub proof fn lemma_requests_answered(command: PowerCommand)
    ensures
        (spec_power_action(command) == PowerAction::Ignore) <==> (command is Other),
        (spec_power_action(command) == PowerAction::RebootThenAcknowledge) <==> (command
            == PowerCommand::HandleRequest(PowerRequest::Reboot)),
{
}

} // verus!
