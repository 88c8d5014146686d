use monitor_layout::identity::MonitorIdentity;
use monitor_layout::layout::{DisplayLayout, LayoutMode, LogicalDisplay, MonitorAssignment};
use monitor_layout::layout_ops::{build_mirror_layout, merge_into_mirror, split_from_mirror, MirrorLayoutError, Side};
use monitor_layout::mode::MonitorMode;
use monitor_layout::monitor::PhysicalMonitor;
use monitor_layout::state::DisplayState;
use monitor_layout::transform::Transform;
use monitor_layout::validation::validate;

fn mk(connector: &str, serial: &str, modes: &[(&str, i32, i32, i64)]) -> PhysicalMonitor {
    PhysicalMonitor {
        identity: MonitorIdentity::new(connector, "GSM", "LG HDR 4K", serial),
        display_name: None,
        modes: modes
            .iter()
            .map(|(id, w, h, hz)| MonitorMode {
                id: (*id).to_owned(),
                width: *w,
                height: *h,
                refresh_micro_hz: *hz,
                preferred_scale: 2_000_000,
                supported_scales: vec![1_000_000, 1_500_000, 2_000_000],
                is_current: false,
                is_preferred: false,
                is_interlaced: false,
                refresh_rate_mode: None,
                extra: Vec::new(),
            })
            .collect(),
        is_builtin: false,
        is_underscanning: false,
        supports_underscanning: false,
        is_for_lease: false,
        color_mode: None,
        supported_color_modes: vec![],
        rgb_range: None,
        min_refresh_rate: None,
        physical_size_mm: None,
        extra: Vec::new(),
    }
}

fn mk_assign(c: &str, m: &str) -> MonitorAssignment {
    MonitorAssignment {
        connector: c.into(),
        mode_id: m.into(),
        color_mode: None,
        rgb_range: None,
        underscanning: None,
    }
}

fn display(x: i32, primary: bool, members: Vec<MonitorAssignment>) -> LogicalDisplay {
    LogicalDisplay { x, y: 0, scale: 2_000_000, transform: Transform::Normal, primary, monitors: members }
}

fn target_state() -> DisplayState {
    let monitors = vec![
        mk("DP-7", "a", &[("3840x2160@59.997", 3840, 2160, 59_997_000)]),
        mk("DP-8", "b", &[("3840x2160@59.997", 3840, 2160, 59_997_000)]),
        mk(
            "HDMI-1",
            "c",
            &[("3840x2160@30.000", 3840, 2160, 30_000_000), ("1920x1080@60.000", 1920, 1080, 60_000_000)],
        ),
    ];
    let mut state = DisplayState {
        serial: 1,
        monitors,
        layout: DisplayLayout {
            layout_mode: LayoutMode::Logical,
            logical_displays: vec![
                display(0, false, vec![mk_assign("DP-8", "3840x2160@59.997")]),
                display(1920, true, vec![mk_assign("DP-7", "3840x2160@59.997")]),
                display(3840, false, vec![mk_assign("HDMI-1", "3840x2160@30.000")]),
            ],
        },
        supports_changing_layout_mode: true,
        global_scale_required: false,
        supports_mirroring: None,
        extra: Vec::new(),
    };
    let layout = state.layout.clone();
    for monitor in &mut state.monitors {
        let current = layout
            .logical_displays
            .iter()
            .flat_map(|l| &l.monitors)
            .find(|a| a.connector == monitor.identity.connector)
            .map(|a| a.mode_id.clone());
        for mode in &mut monitor.modes {
            mode.is_current = current.as_deref() == Some(mode.id.as_str());
        }
    }
    state
}

#[test]
fn builds_partial_mirror_on_each_side() {
    let state = target_state();
    let members = vec!["DP-7".to_owned(), "HDMI-1".to_owned()];

    for side in [Side::Left, Side::Right, Side::Above, Side::Below] {
        let layout = build_mirror_layout(&state, &members, side).unwrap();
        assert_eq!(layout.logical_displays.len(), 2, "{side:?}");
        let problems = validate(&state.monitors, &layout);
        assert!(problems.is_empty(), "{side:?}: {problems:?}");

        let (_, group) = layout.group_of("DP-7").unwrap();
        assert!(group.is_mirror_group());
        assert!(group.contains_connector("HDMI-1"));
        assert!(group.monitors.iter().any(|a| a.mode_id == "3840x2160@59.997"));
        assert!(group.monitors.iter().any(|a| a.mode_id == "3840x2160@30.000"));
        assert!(group.primary);

        let (_, rest) = layout.group_of("DP-8").unwrap();
        let group_rect = group.rect(&state.monitors, layout.layout_mode).unwrap();
        let rest_rect = rest.rect(&state.monitors, layout.layout_mode).unwrap();
        match side {
            Side::Left => assert!(group_rect.x < rest_rect.x),
            Side::Right => assert!(group_rect.x > rest_rect.x),
            Side::Above => assert!(group_rect.y < rest_rect.y),
            Side::Below => assert!(group_rect.y > rest_rect.y),
        }
    }
}

#[test]
fn primary_stays_with_independent_display() {
    let mut state = target_state();
    state.layout.logical_displays[0].primary = true;
    state.layout.logical_displays[1].primary = false;

    let members = vec!["DP-7".to_owned(), "HDMI-1".to_owned()];
    let layout = build_mirror_layout(&state, &members, Side::Right).unwrap();
    let (_, group) = layout.group_of("DP-7").unwrap();
    let (_, rest) = layout.group_of("DP-8").unwrap();
    assert!(!group.primary);
    assert!(rest.primary);
}

#[test]
fn unknown_member_is_reported() {
    let state = target_state();
    let err = build_mirror_layout(&state, &["DP-99".to_owned()], Side::Left).unwrap_err();
    assert!(matches!(err, MirrorLayoutError::UnknownMonitor(c) if c == "DP-99"));
}

#[test]
fn merge_then_split_roundtrip_is_valid() {
    let state = target_state();
    let mut layout = state.layout.clone();

    merge_into_mirror(&state, &mut layout, "DP-7", "HDMI-1").unwrap();
    assert!(validate(&state.monitors, &layout).is_empty());
    assert_eq!(layout.logical_displays.len(), 2);
    let (_, group) = layout.group_of("DP-7").unwrap();
    assert!(group.is_mirror_group());
    assert!(group.contains_connector("HDMI-1"));
    assert!(group.primary, "primary must survive the merge");
    assert!(group.monitors.iter().any(|a| a.mode_id == "3840x2160@59.997"));
    assert!(group.monitors.iter().any(|a| a.mode_id == "3840x2160@30.000"));

    split_from_mirror(&state, &mut layout, "HDMI-1").unwrap();
    assert!(validate(&state.monitors, &layout).is_empty());
    assert_eq!(layout.logical_displays.len(), 3);
    let (_, solo) = layout.group_of("HDMI-1").unwrap();
    assert!(!solo.is_mirror_group());
}

#[test]
fn merge_from_middle_keeps_layout_adjacent() {
    let state = target_state();
    let mut layout = state.layout.clone();
    merge_into_mirror(&state, &mut layout, "DP-8", "HDMI-1").unwrap();
    let problems = validate(&state.monitors, &layout);
    assert!(problems.is_empty(), "{problems:?}");
    assert_eq!(layout.logical_displays.len(), 2);
}

#[test]
fn merge_with_unknown_monitor_fails_cleanly() {
    let state = target_state();
    let mut layout = state.layout.clone();
    let before = layout.clone();
    assert!(merge_into_mirror(&state, &mut layout, "DP-7", "DP-99").is_err());
    assert_eq!(layout, before, "failed merge must not modify the layout");
}

#[test]
fn moving_member_out_of_primary_group_keeps_single_primary() {
    let state = target_state();
    let mut layout = state.layout.clone();
    merge_into_mirror(&state, &mut layout, "DP-7", "DP-8").unwrap();
    assert!(layout.group_of("DP-7").unwrap().1.primary);
    merge_into_mirror(&state, &mut layout, "HDMI-1", "DP-8").unwrap();
    let primaries = layout.logical_displays.iter().filter(|l| l.primary).count();
    assert_eq!(primaries, 1, "exactly one primary after cross-group move");
    assert!(layout.group_of("DP-7").unwrap().1.primary);
    assert!(validate(&state.monitors, &layout).is_empty());
}

#[test]
fn splitting_a_non_member_is_an_error() {
    let state = target_state();
    let mut layout = state.layout.clone();
    let before = layout.clone();
    assert!(split_from_mirror(&state, &mut layout, "DP-99").is_err());
    assert_eq!(layout, before);
}

#[test]
fn layout_errors_explain_themselves() {
    let msg = MirrorLayoutError::UnknownMonitor("DP-99".to_owned()).message();
    assert_eq!(msg, "monitor DP-99 is not connected");
}

#[test]
fn split_member_starts_in_its_preferred_mode() {
    let mut state = target_state();
    state.monitors[2].modes[1].is_preferred = true;
    state.monitors[2].modes[1].preferred_scale = 1_000_000;
    let mut layout = state.layout.clone();
    merge_into_mirror(&state, &mut layout, "DP-7", "HDMI-1").unwrap();
    split_from_mirror(&state, &mut layout, "HDMI-1").unwrap();
    let solo = layout.logical_displays.last().unwrap();
    assert_eq!(solo.monitors.len(), 1);
    assert_eq!(solo.monitors[0].connector, "HDMI-1");
    assert_eq!(solo.monitors[0].mode_id, "1920x1080@60.000");
    assert_eq!(solo.scale, 1_000_000);
    assert_eq!(solo.transform, Transform::Normal);
    assert!(!solo.primary);
}
