use monitor_layout::fixtures::{assignment, fixture, fixture_names, kvm, lg27, logical, mode, monitor, state};
use monitor_layout::layout::{DisplayLayout, LayoutMode};
use monitor_layout::monitor::ColorMode;
use monitor_layout::validation::validate;

#[test]
fn all_fixtures_are_valid_layouts() {
    for name in fixture_names() {
        let s = fixture(name);
        let problems = validate(&s.monitors, &s.layout);
        assert!(problems.is_empty(), "fixture {name}: {problems:?}");
    }
}

#[test]
fn kvm_fixture_is_detected() {
    let s = fixture("mirror-plus-extended");
    let kvm_monitor = s.monitor("HDMI-1").unwrap();
    assert!(kvm_monitor.is_likely_kvm());
    assert!(!s.monitor("DP-7").unwrap().is_likely_kvm());
}

#[test]
fn assigned_modes_are_marked_current() {
    let s = fixture("mirror-plus-extended");
    assert_eq!(s.monitor("DP-7").unwrap().current_mode().unwrap().id, "3840x2160@59.997");
    assert_eq!(s.monitor("HDMI-1").unwrap().current_mode().unwrap().id, "3840x2160@30.000");
    let currents = s.monitor("DP-8").unwrap().modes.iter().filter(|m| m.is_current).count();
    assert_eq!(currents, 1);
}

#[test]
fn builders_fill_in_defaults() {
    let m = mode("1920x1080@60.000", 1920, 1080, 60_000_000, &[1_000_000, 1_250_000]);
    assert_eq!(m.preferred_scale, 1_000_000);
    assert!(!m.is_current && !m.is_preferred);
    let bare = mode("640x480@60.000", 640, 480, 60_000_000, &[]);
    assert_eq!(bare.preferred_scale, 1_000_000);

    let plain = monitor("DP-3", "AAA", "Plain", "9", "", vec![m]);
    assert_eq!(plain.display_name, None);
    assert!(plain.modes[0].is_preferred);
    assert_eq!(plain.color_mode, Some(ColorMode::Default));

    let panel = lg27("DP-1", "0x0001");
    assert_eq!(panel.modes.len(), 5);
    assert!(panel.supports_hdr());
    assert_eq!(panel.physical_size_mm, Some((600, 340)));
    let k = kvm("HDMI-1");
    assert_eq!(k.min_refresh_rate, Some(24));
    assert_eq!(k.preferred_mode().unwrap().id, "3840x2160@30.000");
}

#[test]
fn state_marks_only_assigned_modes() {
    let layout = DisplayLayout {
        layout_mode: LayoutMode::Logical,
        logical_displays: vec![logical(0, 0, 2_000_000, true, vec![assignment("DP-1", "3840x2160@30.000")])],
    };
    let s = state(9, vec![lg27("DP-1", "a"), lg27("DP-2", "b")], layout);
    assert_eq!(s.serial, 9);
    assert_eq!(s.monitors[0].current_mode().unwrap().id, "3840x2160@30.000");
    assert!(s.monitors[1].current_mode().is_none());
    assert!(s.supports_changing_layout_mode);
}

#[test]
fn unknown_properties_fixture_carries_extras() {
    let s = fixture("unknown-properties");
    assert_eq!(s.extra, vec![("hypothetical-51-property".to_owned(), "true".to_owned())]);
    assert_eq!(s.monitors[0].extra, vec![("quantum-flux".to_owned(), "0.7".to_owned())]);
    assert_eq!(s.monitors[0].modes[0].extra, vec![("is-hyperspace".to_owned(), "false".to_owned())]);
    assert!(s.monitors[1].extra.is_empty());
}

#[test]
fn there_are_thirteen_named_topologies() {
    let names = fixture_names();
    assert_eq!(names.len(), 13);
    assert_eq!(fixture("kvm-no-serial").monitor("HDMI-1").unwrap().identity.serial, "");
    assert_eq!(fixture("rotated").layout.logical_displays[1].transform.name(), "90");
}
