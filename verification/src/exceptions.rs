use vstd::prelude::*;
use vstd::string::StringExecFns;

verus! {

/// What can go wrong in an automation step, each with its message.
#[derive(Debug)]
pub enum AutomationError {
    ElementNotFound(String),
    Timeout(String),
    PermissionDenied(String),
    PlatformError(String),
    UnsupportedOperation(String),
    UnsupportedPlatform(String),
    InvalidArgument(String),
    Internal(String),
    InvalidSelector(String),
    UIAutomationAPIError { message: String },
    ElementDetached(String),
    ElementNotVisible(String),
    ElementNotEnabled(String),
    ElementNotStable(String),
    ElementObscured(String),
    ScrollFailed(String),
}

/// The status under which an error is reported to the host: the caller's
/// argument was at fault, or the operation failed.
#[derive(Clone, Copy, Debug, PartialEq, Eq, Structural)]
pub enum Status {
    InvalidArg,
    GenericFailure,
}

/// An error as it is reported to the host.
#[derive(Debug)]
pub struct HostError {
    pub status: Status,
    pub reason: String,
}

impl AutomationError {
    /// The message that the error carries.
    pub open spec fn message(self) -> Seq<char> {
        match self {
            AutomationError::ElementNotFound(m) => m@,
            AutomationError::Timeout(m) => m@,
            AutomationError::PermissionDenied(m) => m@,
            AutomationError::PlatformError(m) => m@,
            AutomationError::UnsupportedOperation(m) => m@,
            AutomationError::UnsupportedPlatform(m) => m@,
            AutomationError::InvalidArgument(m) => m@,
            AutomationError::Internal(m) => m@,
            AutomationError::InvalidSelector(m) => m@,
            AutomationError::UIAutomationAPIError { message } => message@,
            AutomationError::ElementDetached(m) => m@,
            AutomationError::ElementNotVisible(m) => m@,
            AutomationError::ElementNotEnabled(m) => m@,
            AutomationError::ElementNotStable(m) => m@,
            AutomationError::ElementObscured(m) => m@,
            AutomationError::ScrollFailed(m) => m@,
        }
    }

    /// The code that names the kind of the error to the host, with the colon
    /// and the space that part it from the message.
    pub open spec fn prefix(self) -> Seq<char> {
        match self {
            AutomationError::ElementNotFound(_) => "ELEMENT_NOT_FOUND: "@,
            AutomationError::Timeout(_) => "OPERATION_TIMED_OUT: "@,
            AutomationError::PermissionDenied(_) => "PERMISSION_DENIED: "@,
            AutomationError::PlatformError(_) => "PLATFORM_ERROR: "@,
            AutomationError::UnsupportedOperation(_) => "UNSUPPORTED_OPERATION: "@,
            AutomationError::UnsupportedPlatform(_) => "UNSUPPORTED_PLATFORM: "@,
            AutomationError::InvalidArgument(_) => "INVALID_ARGUMENT: "@,
            AutomationError::Internal(_) => "INTERNAL_ERROR: "@,
            AutomationError::InvalidSelector(_) => "INVALID_SELECTOR: "@,
            AutomationError::UIAutomationAPIError { .. } => "UI_AUTOMATION_API_ERROR: "@,
            AutomationError::ElementDetached(_) => "ELEMENT_DETACHED: "@,
            AutomationError::ElementNotVisible(_) => "ELEMENT_NOT_VISIBLE: "@,
            AutomationError::ElementNotEnabled(_) => "ELEMENT_NOT_ENABLED: "@,
            AutomationError::ElementNotStable(_) => "ELEMENT_NOT_STABLE: "@,
            AutomationError::ElementObscured(_) => "ELEMENT_OBSCURED: "@,
            AutomationError::ScrollFailed(_) => "SCROLL_FAILED: "@,
        }
    }

    /// The status under which the error is reported: the operation failed
    /// where time ran out, permission was denied, the platform or its
    /// automation interface failed, something went wrong inside, the element
    /// would not hold still or scrolling failed; in all other cases the
    /// argument was at fault.
    pub open spec fn status(self) -> Status {
        match self {
            AutomationError::Timeout(_) => Status::GenericFailure,
            AutomationError::PermissionDenied(_) => Status::GenericFailure,
            AutomationError::PlatformError(_) => Status::GenericFailure,
            AutomationError::Internal(_) => Status::GenericFailure,
            AutomationError::UIAutomationAPIError { .. } => Status::GenericFailure,
            AutomationError::ElementNotStable(_) => Status::GenericFailure,
            AutomationError::ScrollFailed(_) => Status::GenericFailure,
            _ => Status::InvalidArg,
        }
    }
}

/// The host error with the given status whose reason is `prefix` followed by
/// `message`.
fn host_error(status: Status, prefix: &str, message: String) -> (r: HostError)
    ensures
        r.status == status,
        r.reason@ == prefix@ + message@,
{
    HostError { status, reason: String::from_str(prefix).concat(message.as_str()) }
}

/// Maps an automation error to the error that is reported to the host: the
/// status of its kind, and as the reason the code of its kind, a colon, a
/// space and the message.
pub fn map_error(err: AutomationError) -> (r: HostError)
    ensures
        r.status == err.status(),
        r.reason@ == err.prefix() + err.message(),
{
    match err {
        AutomationError::ElementNotFound(m) => host_error(
            Status::InvalidArg,
            "ELEMENT_NOT_FOUND: ",
            m,
        ),
        AutomationError::Timeout(m) => host_error(
            Status::GenericFailure,
            "OPERATION_TIMED_OUT: ",
            m,
        ),
        AutomationError::PermissionDenied(m) => host_error(
            Status::GenericFailure,
            "PERMISSION_DENIED: ",
            m,
        ),
        AutomationError::PlatformError(m) => host_error(
            Status::GenericFailure,
            "PLATFORM_ERROR: ",
            m,
        ),
        AutomationError::UnsupportedOperation(m) => host_error(
            Status::InvalidArg,
            "UNSUPPORTED_OPERATION: ",
            m,
        ),
        AutomationError::UnsupportedPlatform(m) => host_error(
            Status::InvalidArg,
            "UNSUPPORTED_PLATFORM: ",
            m,
        ),
        AutomationError::InvalidArgument(m) => host_error(
            Status::InvalidArg,
            "INVALID_ARGUMENT: ",
            m,
        ),
        AutomationError::Internal(m) => host_error(Status::GenericFailure, "INTERNAL_ERROR: ", m),
        AutomationError::InvalidSelector(m) => host_error(
            Status::InvalidArg,
            "INVALID_SELECTOR: ",
            m,
        ),
        AutomationError::UIAutomationAPIError { message } => host_error(
            Status::GenericFailure,
            "UI_AUTOMATION_API_ERROR: ",
            message,
        ),
        AutomationError::ElementDetached(m) => host_error(
            Status::InvalidArg,
            "ELEMENT_DETACHED: ",
            m,
        ),
        AutomationError::ElementNotVisible(m) => host_error(
            Status::InvalidArg,
            "ELEMENT_NOT_VISIBLE: ",
            m,
        ),
        AutomationError::ElementNotEnabled(m) => host_error(
            Status::InvalidArg,
            "ELEMENT_NOT_ENABLED: ",
            m,
        ),
        AutomationError::ElementNotStable(m) => host_error(
            Status::GenericFailure,
            "ELEMENT_NOT_STABLE: ",
            m,
        ),
        AutomationError::ElementObscured(m) => host_error(
            Status::InvalidArg,
            "ELEMENT_OBSCURED: ",
            m,
        ),
        AutomationError::ScrollFailed(m) => host_error(
            Status::GenericFailure,
            "SCROLL_FAILED: ",
            m,
        ),
    }
}

} // verus!
