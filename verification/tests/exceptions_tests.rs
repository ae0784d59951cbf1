use condition_eval::exceptions::{AutomationError, Status};
use condition_eval::map_error;

fn check(err: AutomationError, status: Status, reason: &str) {
    let mapped = map_error(err);
    assert_eq!(mapped.status, status);
    assert_eq!(mapped.reason, reason);
}

#[test]
fn argument_faults() {
    let m = || "msg".to_string();
    check(AutomationError::ElementNotFound(m()), Status::InvalidArg, "ELEMENT_NOT_FOUND: msg");
    check(AutomationError::UnsupportedOperation(m()), Status::InvalidArg, "UNSUPPORTED_OPERATION: msg");
    check(AutomationError::UnsupportedPlatform(m()), Status::InvalidArg, "UNSUPPORTED_PLATFORM: msg");
    check(AutomationError::InvalidArgument(m()), Status::InvalidArg, "INVALID_ARGUMENT: msg");
    check(AutomationError::InvalidSelector(m()), Status::InvalidArg, "INVALID_SELECTOR: msg");
    check(AutomationError::ElementDetached(m()), Status::InvalidArg, "ELEMENT_DETACHED: msg");
    check(AutomationError::ElementNotVisible(m()), Status::InvalidArg, "ELEMENT_NOT_VISIBLE: msg");
    check(AutomationError::ElementNotEnabled(m()), Status::InvalidArg, "ELEMENT_NOT_ENABLED: msg");
    check(AutomationError::ElementObscured(m()), Status::InvalidArg, "ELEMENT_OBSCURED: msg");
}

#[test]
fn failures() {
    let m = || "msg".to_string();
    check(AutomationError::Timeout(m()), Status::GenericFailure, "OPERATION_TIMED_OUT: msg");
    check(AutomationError::PermissionDenied(m()), Status::GenericFailure, "PERMISSION_DENIED: msg");
    check(AutomationError::PlatformError(m()), Status::GenericFailure, "PLATFORM_ERROR: msg");
    check(AutomationError::Internal(m()), Status::GenericFailure, "INTERNAL_ERROR: msg");
    check(
        AutomationError::UIAutomationAPIError { message: m() },
        Status::GenericFailure,
        "UI_AUTOMATION_API_ERROR: msg",
    );
    check(AutomationError::ElementNotStable(m()), Status::GenericFailure, "ELEMENT_NOT_STABLE: msg");
    check(AutomationError::ScrollFailed(m()), Status::GenericFailure, "SCROLL_FAILED: msg");
}

#[test]
fn message_is_kept_as_it_is() {
    check(AutomationError::Timeout(String::new()), Status::GenericFailure, "OPERATION_TIMED_OUT: ");
    check(
        AutomationError::Internal("née: 中文 😀".to_string()),
        Status::GenericFailure,
        "INTERNAL_ERROR: née: 中文 😀",
    );
}
