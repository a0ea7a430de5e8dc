//! The OS service actions the administration tool can request, and their
//! mapping to shell commands. Running the commands and polling the service
//! stays with the caller; only the mapping itself lives here.

use vstd::prelude::*;

verus! {

/// An action on the host application's OS service.
#[derive(Clone, Copy, Debug, PartialEq, Eq, Structural)]
pub enum ServiceAction {
    Start,
    Stop,
    Restart,
}

/// The shell command name for a service action.
pub open spec fn action_command(action: ServiceAction) -> Seq<char> {
    match action {
        ServiceAction::Start => "Start-Service"@,
        ServiceAction::Stop => "Stop-Service"@,
        ServiceAction::Restart => "Restart-Service"@,
    }
}

/// Converts a service action to the corresponding shell command.
pub fn action_to_command(action: ServiceAction) -> (r: &'static str)
    ensures
        r@ == action_command(action),
{
    match action {
        ServiceAction::Start => "Start-Service",
        ServiceAction::Stop => "Stop-Service",
        ServiceAction::Restart => "Restart-Service",
    }
}

} // verus!
