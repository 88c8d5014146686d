use monitor_layout::error::{BackendError, RejectionKind};
use monitor_layout::fixtures::fixture;
use monitor_layout::watchdog::{
    after_apply, on_control, preview_allowed, preview_seconds, restore_step, watchdog_seconds, AfterApply,
    ControlAction, ControlEvent, RestoreStep,
};

#[test]
fn confirm_and_cancel_end_the_watch() {
    assert_eq!(on_control(&ControlEvent::Line("CONFIRM".into())), ControlAction::Confirmed);
    assert_eq!(on_control(&ControlEvent::Line("  CANCEL\r".into())), ControlAction::Cancelled);
    assert_eq!(on_control(&ControlEvent::Line("HEARTBEAT?".into())), ControlAction::Ignore);
    assert_eq!(on_control(&ControlEvent::Line("confirm".into())), ControlAction::Ignore);
}

#[test]
fn losing_the_parent_restores() {
    assert_eq!(on_control(&ControlEvent::Eof), ControlAction::Restore);
    assert_eq!(on_control(&ControlEvent::Timeout), ControlAction::Restore);
    assert_eq!(on_control(&ControlEvent::Disconnected), ControlAction::Restore);
}

#[test]
fn restore_never_overwrites_a_newer_configuration() {
    let snapshot = fixture("dual-extended").layout;
    let preview = fixture("dual-mirrored").layout;
    let other = fixture("fractional-scaling").layout;
    assert_eq!(restore_step(&snapshot, &snapshot, Some(&preview)), RestoreStep::AlreadyRestored);
    assert_eq!(restore_step(&other, &snapshot, Some(&preview)), RestoreStep::ChangedByOthers);
    assert_eq!(restore_step(&preview, &snapshot, Some(&preview)), RestoreStep::Apply);
    assert_eq!(restore_step(&other, &snapshot, None), RestoreStep::Apply);
}

#[test]
fn stale_serials_are_retried_once() {
    let stale = Err(BackendError::Rejected { kind: RejectionKind::StaleSerial, message: "stale".into() });
    assert_eq!(after_apply(&Ok(()), 1), AfterApply::Done);
    assert_eq!(after_apply(&stale, 1), AfterApply::Retry);
    assert_eq!(after_apply(&stale, 2), AfterApply::Fail);
    let other = Err(BackendError::Rejected { kind: RejectionKind::Overlap, message: "overlap".into() });
    assert_eq!(after_apply(&other, 1), AfterApply::Fail);
}

#[test]
fn preview_timing_and_guard() {
    assert_eq!(preview_seconds(2), 5);
    assert_eq!(preview_seconds(30), 30);
    assert_eq!(watchdog_seconds(30), 40);
    assert!(preview_allowed(true, true, false));
    assert!(!preview_allowed(true, false, false));
    assert!(preview_allowed(false, false, true));
}
