use vstd::prelude::*;
use crate::controller::ControllerType;

verus! {

/// Failures of cgroup resolution and teardown.
#[derive(Clone, Copy, Debug, PartialEq, Eq, Structural)]
pub enum CgroupError {
    /// The host mount table text could not be parsed.
    MountTableUnreadable,
    /// No cgroup mount serves the controller.
    MountNotFound(ControllerType),
    /// The process cgroup listing could not be parsed.
    MembershipUnreadable,
    /// The calling process has no placement for the controller.
    MembershipNotFound(ControllerType),
    /// A requested path would leave its mount point.
    PathEscape,
    /// A controller failed to apply its resources.
    ControllerApplyFailed(ControllerType),
    /// A process-membership file could not be read.
    MembershipReadFailed(ControllerType),
    /// A process-membership file holds a line that is not a pid.
    PidParseError(ControllerType),
    /// A cgroup directory stayed busy for the whole retry budget.
    RemovalTimeout(ControllerType),
}

} // verus!
