use monitor_layout::error::{BackendError, RejectionKind};
use monitor_layout::fixtures::{fixture, lg27};
use monitor_layout::mock::{hotplug, mock_apply};
use monitor_layout::state::ApplyMethod;

#[test]
fn verify_does_not_change_the_state() {
    let mut s = fixture("dual-extended");
    let layout = s.layout.clone();
    let serial = s.serial;
    assert!(mock_apply(&mut s, serial, &layout, ApplyMethod::Verify).is_ok());
    assert_eq!(s.serial, serial);
}

#[test]
fn temporary_apply_commits_and_bumps_the_serial() {
    let mut s = fixture("dual-extended");
    let mut layout = s.layout.clone();
    layout.logical_displays[1].monitors[0].mode_id = "3840x2160@30.000".into();
    let serial = s.serial;
    assert!(mock_apply(&mut s, serial, &layout, ApplyMethod::Temporary).is_ok());
    assert_eq!(s.serial, serial + 1);
    assert_eq!(s.monitor("DP-2").unwrap().current_mode().unwrap().id, "3840x2160@30.000");
}

#[test]
fn stale_serial_is_rejected() {
    let mut s = fixture("dual-extended");
    let layout = s.layout.clone();
    let err = mock_apply(&mut s, 99, &layout, ApplyMethod::Temporary).unwrap_err();
    assert!(matches!(err, BackendError::Rejected { kind: RejectionKind::StaleSerial, .. }));
}

#[test]
fn invalid_layout_is_rejected_like_the_compositor() {
    let mut s = fixture("dual-extended");
    let mut layout = s.layout.clone();
    layout.logical_displays[1].x = 2500;
    let serial = s.serial;
    let err = mock_apply(&mut s, serial, &layout, ApplyMethod::Temporary).unwrap_err();
    assert!(matches!(err, BackendError::Rejected { kind: RejectionKind::NotAdjacent, .. }));
}

#[test]
fn unplugging_a_monitor_drops_it_from_the_layout() {
    let mut s = fixture("dual-extended");
    hotplug(&mut s, vec![lg27("DP-1", "0x0001")]);
    assert_eq!(s.serial, 2);
    assert_eq!(s.layout.logical_displays.len(), 1);
    assert!(s.layout.logical_displays[0].primary);
}
