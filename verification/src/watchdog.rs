//! Decisions of the rollback watchdog.
//!
//! The watchdog is armed with a snapshot before a temporary configuration
//! is applied. A `CONFIRM` or `CANCEL` line from the parent ends it without
//! touching anything; the parent disappearing, its input ending or the
//! confirmation timeout restores the snapshot. Restoration never
//! overwrites a configuration that someone else changed meanwhile, and
//! retries only when the serial raced.
use vstd::prelude::*;
use crate::compare::layouts_equal;
use crate::error::{BackendError, BackendErrorView, RejectionKind};
use crate::layout::DisplayLayout;
use crate::text::{chars_of, trim_chars, trim_seq};

verus! {

/// Restoration attempts before giving up on a racing serial: the first,
/// and one retry.
pub const MAX_RESTORE_ATTEMPTS: u32 = 2;

/// What happened on the control channel.
#[derive(Debug, PartialEq)]
pub enum ControlEvent {
    /// A line from the parent.
    Line(String),
    /// The parent's input ended: the parent died while a temporary
    /// configuration was live.
    Eof,
    /// The confirmation timeout elapsed: the parent hung.
    Timeout,
    /// The reader of the parent's input stopped.
    Disconnected,
}

/// What the watchdog does next.
#[derive(Debug, Clone, Copy, PartialEq, Eq, Structural)]
pub enum ControlAction {
    /// The parent confirmed the new configuration; exit.
    Confirmed,
    /// The parent reverted on its own; exit.
    Cancelled,
    /// An unknown line; keep waiting.
    Ignore,
    /// Restore the snapshot.
    Restore,
}

pub open spec fn control_action(event: ControlEvent) -> ControlAction {
    match event {
        ControlEvent::Line(l) => if trim_seq(l@) == "CONFIRM"@ {
            ControlAction::Confirmed
        } else if trim_seq(l@) == "CANCEL"@ {
            ControlAction::Cancelled
        } else {
            ControlAction::Ignore
        },
        _ => ControlAction::Restore,
    }
}

fn chars_equal(a: &Vec<char>, b: &Vec<char>) -> (r: bool)
    ensures
        r == (a@ == b@),
{
    if a.len() != b.len() {
        return false;
    }
    let mut i: usize = 0;
    while i < a.len()
        invariant
            a@.len() == b@.len(),
            i <= a@.len(),
            forall|j: int| 0 <= j < i ==> a@[j] == b@[j],
        decreases a@.len() - i,
    {
        if a[i] != b[i] {
            return false;
        }
        i += 1;
    }
    assert(a@ =~= b@);
    true
}

/// The watchdog's reaction to a control event: `CONFIRM` and `CANCEL`
/// (surrounding whitespace ignored) end it, other lines are ignored, and
/// the end of input, a timeout or a lost reader restore the snapshot.
pub fn on_control(event: &ControlEvent) -> (r: ControlAction)
    ensures
        r == control_action(*event),
{
    match event {
        ControlEvent::Line(line) => {
            let trimmed = trim_chars(&chars_of(line.as_str()));
            let confirm = chars_of("CONFIRM");
            let cancel = chars_of("CANCEL");
            if chars_equal(&trimmed, &confirm) {
                ControlAction::Confirmed
            } else if chars_equal(&trimmed, &cancel) {
                ControlAction::Cancelled
            } else {
                ControlAction::Ignore
            }
        },
        _ => ControlAction::Restore,
    }
}

/// What a restoration attempt does with the configuration it finds.
#[derive(Debug, Clone, Copy, PartialEq, Eq, Structural)]
pub enum RestoreStep {
    /// The configuration already matches the snapshot; nothing to do.
    AlreadyRestored,
    /// Someone else changed the configuration during the preview; leave it.
    ChangedByOthers,
    /// Apply the snapshot.
    Apply,
}

pub open spec fn restore_step_spec(
    current: crate::layout::LayoutView,
    snapshot: crate::layout::LayoutView,
    expected: Option<crate::layout::LayoutView>,
) -> RestoreStep {
    if current == snapshot {
        RestoreStep::AlreadyRestored
    } else if expected is Some && current != expected->0 {
        RestoreStep::ChangedByOthers
    } else {
        RestoreStep::Apply
    }
}

/// Decides a restoration attempt from the current layout, the snapshot
/// and (when known) the layout the preview applied: the snapshot is
/// applied only while the compositor still shows the preview.
pub fn restore_step(current: &DisplayLayout, snapshot: &DisplayLayout, expected: Option<&DisplayLayout>) -> (r: RestoreStep)
    ensures
        r == restore_step_spec(
            current@,
            snapshot@,
            match expected {
                Some(e) => Some(e@),
                None => None,
            },
        ),
{
    if layouts_equal(current, snapshot) {
        return RestoreStep::AlreadyRestored;
    }
    match expected {
        Some(e) => if !layouts_equal(current, e) {
            RestoreStep::ChangedByOthers
        } else {
            RestoreStep::Apply
        },
        None => RestoreStep::Apply,
    }
}

/// What follows an apply of the snapshot.
#[derive(Debug, Clone, Copy, PartialEq, Eq, Structural)]
pub enum AfterApply {
    /// Restored.
    Done,
    /// The serial raced; fetch a fresh state and try again.
    Retry,
    /// Restoration failed.
    Fail,
}

pub open spec fn after_apply_spec(result: Result<(), BackendErrorView>, attempt: u32) -> AfterApply {
    match result {
        Ok(()) => AfterApply::Done,
        Err(BackendErrorView::Rejected { kind: RejectionKind::StaleSerial, .. }) => if attempt
            < MAX_RESTORE_ATTEMPTS {
            AfterApply::Retry
        } else {
            AfterApply::Fail
        },
        Err(_) => AfterApply::Fail,
    }
}

/// Decides what follows attempt number `attempt` (from 1) of applying the
/// snapshot: a stale serial is retried while attempts remain.
pub fn after_apply(result: &Result<(), BackendError>, attempt: u32) -> (r: AfterApply)
    ensures
        r == after_apply_spec(
            match result {
                Ok(()) => Ok(()),
                Err(e) => Err(e@),
            },
            attempt,
        ),
{
    match result {
        Ok(()) => AfterApply::Done,
        Err(BackendError::Rejected { kind: RejectionKind::StaleSerial, .. }) => if attempt < MAX_RESTORE_ATTEMPTS {
            AfterApply::Retry
        } else {
            AfterApply::Fail
        },
        Err(_) => AfterApply::Fail,
    }
}

/// The snapshot is applied only over the preview it guards: never over a
/// configuration that differs from the expected one.
pub proof fn lemma_never_overwrites_newer(
    current: crate::layout::LayoutView,
    snapshot: crate::layout::LayoutView,
    expected: crate::layout::LayoutView,
)
    ensures
        restore_step_spec(current, snapshot, Some(expected)) == RestoreStep::Apply ==> current == expected
            && current != snapshot,
{
}

/// A confirmation or cancellation never restores; losing the parent or
/// the timeout always does.
pub proof fn lemma_restore_only_without_parent(event: ControlEvent)
    ensures
        control_action(event) == ControlAction::Restore <==> !(event is Line),
{
}

/// Shortest confirmation window of a preview, in seconds.
pub const MIN_PREVIEW_SECONDS: u32 = 5;

/// Extra seconds the watchdog waits beyond the confirmation window.
pub const WATCHDOG_GRACE_SECONDS: u64 = 10;

/// Seconds the user has to keep a previewed configuration: the
/// preference, but at least the minimum.
pub fn preview_seconds(confirm_seconds: u32) -> (r: u64)
    ensures
        r == if confirm_seconds < MIN_PREVIEW_SECONDS {
            MIN_PREVIEW_SECONDS
        } else {
            confirm_seconds
        },
{
    if confirm_seconds < MIN_PREVIEW_SECONDS {
        MIN_PREVIEW_SECONDS as u64
    } else {
        confirm_seconds as u64
    }
}

/// Seconds the watchdog waits for the parent: the confirmation window
/// plus a grace period, so that it only acts when the parent hangs.
pub fn watchdog_seconds(preview_seconds: u64) -> (r: u64)
    requires
        preview_seconds <= u64::MAX - WATCHDOG_GRACE_SECONDS,
    ensures
        r == preview_seconds + WATCHDOG_GRACE_SECONDS,
{
    preview_seconds + WATCHDOG_GRACE_SECONDS
}

/// A preview runs only with a recovery marker written and the watchdog
/// armed, unless the unguarded override is set.
pub fn preview_allowed(marker_written: bool, watchdog_armed: bool, unguarded_override: bool) -> (r: bool)
    ensures
        r == ((marker_written && watchdog_armed) || unguarded_override),
{
    (marker_written && watchdog_armed) || unguarded_override
}

} // verus!
