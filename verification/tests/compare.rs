use monitor_layout::compare::{layouts_equal, layouts_equivalent, same_members};
use monitor_layout::fixtures::{assignment, fixture};

#[test]
fn reordered_displays_are_equivalent_but_not_equal() {
    let a = fixture("triple-extended").layout;
    let mut b = a.clone();
    b.logical_displays.swap(0, 2);
    assert!(layouts_equivalent(&a, &b));
    assert!(!layouts_equal(&a, &b));
    assert!(layouts_equal(&a, &a.clone()));
}

#[test]
fn reordered_members_are_equivalent() {
    let a = fixture("mirror-plus-extended").layout;
    let mut b = a.clone();
    b.logical_displays[0].monitors.swap(0, 1);
    assert!(layouts_equivalent(&a, &b));
    assert!(same_members(&a.logical_displays[0].monitors, &b.logical_displays[0].monitors));
}

#[test]
fn moved_or_changed_displays_are_not_equivalent() {
    let a = fixture("dual-extended").layout;
    let mut moved = a.clone();
    moved.logical_displays[1].y = 10;
    assert!(!layouts_equivalent(&a, &moved));
    let mut other_mode = a.clone();
    other_mode.logical_displays[1].monitors[0].mode_id = "3840x2160@30.000".into();
    assert!(!layouts_equivalent(&a, &other_mode));
    let mut fewer = a.clone();
    fewer.logical_displays.pop();
    assert!(!layouts_equivalent(&a, &fewer));
}

#[test]
fn member_multiplicity_matters() {
    let once = vec![assignment("DP-1", "m"), assignment("DP-2", "m")];
    let twice = vec![assignment("DP-1", "m"), assignment("DP-1", "m")];
    assert!(!same_members(&once, &twice));
    assert!(same_members(&twice, &twice.clone()));
}
