use monitor_layout::identity::MonitorIdentity;
use monitor_layout::layout::{DisplayLayout, LayoutMode, LogicalDisplay, MonitorAssignment};
use monitor_layout::mode::MonitorMode;
use monitor_layout::monitor::PhysicalMonitor;
use monitor_layout::transform::Transform;
use monitor_layout::validation::{
    can_normalize, is_appliable, normalize, validate, validate_with_policy, LayoutProblem, ValidationPolicy,
};

fn mk_monitor(connector: &str, serial: &str, modes: &[(i32, i32, i64)]) -> PhysicalMonitor {
    PhysicalMonitor {
        identity: MonitorIdentity::new(connector, "GSM", "LG HDR 4K", serial),
        display_name: None,
        modes: modes
            .iter()
            .enumerate()
            .map(|(i, (w, h, hz))| MonitorMode {
                id: format!("{w}x{h}@{:.3}", *hz as f64 / 1e6),
                width: *w,
                height: *h,
                refresh_micro_hz: *hz,
                preferred_scale: 1_000_000,
                supported_scales: vec![1_000_000, 1_500_000, 2_000_000],
                is_current: i == 0,
                is_preferred: i == 0,
                is_interlaced: false,
                refresh_rate_mode: None,
                extra: Vec::new(),
            })
            .collect(),
        is_builtin: false,
        is_underscanning: false,
        supports_underscanning: false,
        is_for_lease: false,
        color_mode: None,
        supported_color_modes: vec![],
        rgb_range: None,
        min_refresh_rate: None,
        physical_size_mm: None,
        extra: Vec::new(),
    }
}

fn assignment(connector: &str, mode: &str) -> MonitorAssignment {
    MonitorAssignment {
        connector: connector.into(),
        mode_id: mode.into(),
        color_mode: None,
        rgb_range: None,
        underscanning: None,
    }
}

fn logical(x: i32, y: i32, scale: i64, primary: bool, monitors: Vec<MonitorAssignment>) -> LogicalDisplay {
    LogicalDisplay { x, y, scale, transform: Transform::Normal, primary, monitors }
}

fn monitors3() -> Vec<PhysicalMonitor> {
    vec![
        mk_monitor("DP-7", "0x0004ee0e", &[(3840, 2160, 59_997_000), (1920, 1080, 60_000_000)]),
        mk_monitor("DP-8", "0x0003e924", &[(3840, 2160, 59_997_000), (1920, 1080, 60_000_000)]),
        mk_monitor("HDMI-1", "0x88888800", &[(3840, 2160, 30_000_000), (1920, 1080, 60_000_000)]),
    ]
}

#[test]
fn valid_partial_mirror_layout() {
    let monitors = monitors3();
    let layout = DisplayLayout {
        layout_mode: LayoutMode::Logical,
        logical_displays: vec![
            logical(
                0,
                0,
                2_000_000,
                true,
                vec![assignment("DP-7", "3840x2160@59.997"), assignment("HDMI-1", "3840x2160@30.000")],
            ),
            logical(1920, 0, 2_000_000, false, vec![assignment("DP-8", "3840x2160@59.997")]),
        ],
    };
    assert_eq!(validate(&monitors, &layout), vec![]);
}

#[test]
fn detects_gap_and_overlap() {
    let monitors = monitors3();
    let mut layout = DisplayLayout {
        layout_mode: LayoutMode::Logical,
        logical_displays: vec![
            logical(0, 0, 2_000_000, true, vec![assignment("DP-7", "3840x2160@59.997")]),
            logical(2000, 0, 2_000_000, false, vec![assignment("DP-8", "3840x2160@59.997")]),
        ],
    };
    assert_eq!(validate(&monitors, &layout), vec![LayoutProblem::NotAdjacent]);

    layout.logical_displays[1].x = 1000;
    let problems = validate(&monitors, &layout);
    assert!(problems.contains(&LayoutProblem::Overlap { a: 1, b: 2 }));
}

#[test]
fn detects_primary_problems() {
    let monitors = monitors3();
    let mut layout = DisplayLayout {
        layout_mode: LayoutMode::Logical,
        logical_displays: vec![
            logical(0, 0, 2_000_000, false, vec![assignment("DP-7", "3840x2160@59.997")]),
            logical(1920, 0, 2_000_000, false, vec![assignment("DP-8", "3840x2160@59.997")]),
        ],
    };
    assert!(validate(&monitors, &layout).contains(&LayoutProblem::MissingPrimary));
    layout.logical_displays[0].primary = true;
    layout.logical_displays[1].primary = true;
    assert!(validate(&monitors, &layout).contains(&LayoutProblem::MultiplePrimary));
}

#[test]
fn detects_mirror_resolution_mismatch() {
    let monitors = monitors3();
    let layout = DisplayLayout {
        layout_mode: LayoutMode::Logical,
        logical_displays: vec![logical(
            0,
            0,
            1_000_000,
            true,
            vec![assignment("DP-7", "3840x2160@59.997"), assignment("HDMI-1", "1920x1080@60.000")],
        )],
    };
    let problems = validate(&monitors, &layout);
    assert!(matches!(problems[0], LayoutProblem::MirrorResolutionMismatch { group: 1, .. }));
}

#[test]
fn detects_unknown_connector_mode_and_stale_entities() {
    let monitors = monitors3();
    let layout = DisplayLayout {
        layout_mode: LayoutMode::Logical,
        logical_displays: vec![
            logical(0, 0, 1_000_000, true, vec![assignment("DP-9", "1920x1080@60.000")]),
            logical(0, 1080, 1_000_000, false, vec![assignment("DP-7", "800x600@56.000")]),
        ],
    };
    let problems = validate(&monitors, &layout);
    assert!(problems.contains(&LayoutProblem::UnknownConnector { connector: "DP-9".into() }));
    assert!(problems.contains(&LayoutProblem::UnknownMode {
        connector: "DP-7".into(),
        mode_id: "800x600@56.000".into()
    }));
}

#[test]
fn detects_unsupported_scale() {
    let monitors = monitors3();
    let layout = DisplayLayout {
        layout_mode: LayoutMode::Logical,
        logical_displays: vec![logical(0, 0, 1_750_000, true, vec![assignment("DP-7", "3840x2160@59.997")])],
    };
    let problems = validate(&monitors, &layout);
    assert!(matches!(problems[0], LayoutProblem::UnsupportedScale { .. }));
}

#[test]
fn detects_duplicate_monitor_across_groups() {
    let monitors = monitors3();
    let layout = DisplayLayout {
        layout_mode: LayoutMode::Logical,
        logical_displays: vec![
            logical(0, 0, 2_000_000, true, vec![assignment("DP-7", "3840x2160@59.997")]),
            logical(1920, 0, 2_000_000, false, vec![assignment("DP-7", "3840x2160@59.997")]),
        ],
    };
    let problems = validate(&monitors, &layout);
    assert!(problems.contains(&LayoutProblem::MonitorInMultipleGroups { connector: "DP-7".into() }));
}

#[test]
fn normalize_moves_origin() {
    let monitors = monitors3();
    let mut layout = DisplayLayout {
        layout_mode: LayoutMode::Logical,
        logical_displays: vec![
            logical(-1920, 100, 2_000_000, true, vec![assignment("DP-7", "3840x2160@59.997")]),
            logical(0, 100, 2_000_000, false, vec![assignment("DP-8", "3840x2160@59.997")]),
        ],
    };
    let problems = validate(&monitors, &layout);
    assert!(problems.contains(&LayoutProblem::NotNormalized { min_x: -1920, min_y: 100 }));
    assert!(is_appliable(&problems));
    assert!(can_normalize(&layout, &monitors));
    normalize(&mut layout, &monitors);
    assert_eq!((layout.logical_displays[0].x, layout.logical_displays[0].y), (0, 0));
    assert_eq!((layout.logical_displays[1].x, layout.logical_displays[1].y), (1920, 0));
    assert_eq!(validate(&monitors, &layout), vec![]);
}

#[test]
fn rotated_display_uses_transformed_size() {
    let monitors = monitors3();
    let layout = DisplayLayout {
        layout_mode: LayoutMode::Logical,
        logical_displays: vec![
            LogicalDisplay {
                x: 0,
                y: 0,
                scale: 2_000_000,
                transform: Transform::Rotate90,
                primary: true,
                monitors: vec![assignment("DP-7", "3840x2160@59.997")],
            },
            logical(1080, 0, 2_000_000, false, vec![assignment("DP-8", "3840x2160@59.997")]),
        ],
    };
    assert_eq!(validate(&monitors, &layout), vec![]);
    let rect = layout.logical_displays[0].rect(&monitors, LayoutMode::Logical).unwrap();
    assert_eq!((rect.width, rect.height), (1080, 1920));
}

#[test]
fn empty_layout_is_rejected() {
    let monitors = monitors3();
    let layout = DisplayLayout { layout_mode: LayoutMode::Logical, logical_displays: vec![] };
    assert_eq!(validate(&monitors, &layout), vec![LayoutProblem::NoActiveDisplays]);
    assert!(!is_appliable(&validate(&monitors, &layout)));
}

#[test]
fn policy_global_scale_and_mirroring() {
    let monitors = monitors3();
    let layout = DisplayLayout {
        layout_mode: LayoutMode::Logical,
        logical_displays: vec![
            logical(0, 0, 2_000_000, true, vec![assignment("DP-7", "3840x2160@59.997")]),
            logical(1920, 0, 1_500_000, false, vec![assignment("DP-8", "3840x2160@59.997")]),
        ],
    };
    assert!(validate(&monitors, &layout).is_empty());
    let strict = ValidationPolicy { global_scale_required: true, supports_mirroring: false };
    let problems = validate_with_policy(&monitors, &layout, strict);
    assert!(problems.iter().any(|p| matches!(p, LayoutProblem::GlobalScaleMismatch { .. })));

    let mirror = DisplayLayout {
        layout_mode: LayoutMode::Logical,
        logical_displays: vec![logical(
            0,
            0,
            2_000_000,
            true,
            vec![assignment("DP-7", "3840x2160@59.997"), assignment("HDMI-1", "3840x2160@30.000")],
        )],
    };
    let problems = validate_with_policy(&monitors, &mirror, strict);
    assert!(problems.contains(&LayoutProblem::MirroringUnsupported));
    assert!(validate(&monitors, &mirror).is_empty());
}

#[test]
fn physical_mode_requires_integer_scales() {
    let monitors = monitors3();
    let layout = DisplayLayout {
        layout_mode: LayoutMode::Physical,
        logical_displays: vec![
            logical(0, 0, 1_500_000, true, vec![assignment("DP-7", "3840x2160@59.997")]),
            logical(3840, 0, 1_000_000, false, vec![assignment("DP-8", "3840x2160@59.997")]),
        ],
    };
    let problems = validate(&monitors, &layout);
    assert!(problems.iter().any(|p| matches!(p, LayoutProblem::FractionalScaleInPhysicalMode { .. })));
}

#[test]
fn leased_monitors_are_rejected() {
    let mut monitors = monitors3();
    monitors[0].is_for_lease = true;
    let layout = DisplayLayout {
        layout_mode: LayoutMode::Logical,
        logical_displays: vec![
            logical(0, 0, 2_000_000, true, vec![assignment("DP-7", "3840x2160@59.997")]),
            logical(1920, 0, 2_000_000, false, vec![assignment("DP-8", "3840x2160@59.997")]),
        ],
    };
    let problems = validate(&monitors, &layout);
    assert!(problems.contains(&LayoutProblem::MonitorForLease { connector: "DP-7".into() }));
}

#[test]
fn only_normalization_is_auto_fixable() {
    assert!(LayoutProblem::NotNormalized { min_x: 5, min_y: 0 }.is_auto_fixable());
    assert!(!LayoutProblem::NotAdjacent.is_auto_fixable());
    assert!(!is_appliable(&[LayoutProblem::NotAdjacent]));
    assert!(is_appliable(&[]));
}

#[test]
fn problems_render_as_messages() {
    assert!(!LayoutProblem::MissingPrimary.message().is_empty());
    let msg = LayoutProblem::UnknownConnector { connector: "DP-9".into() }.message();
    assert!(msg.contains("DP-9"));
}

#[test]
fn normalizing_twice_or_at_the_origin_changes_nothing() {
    let monitors = monitors3();
    let mut layout = DisplayLayout {
        layout_mode: LayoutMode::Logical,
        logical_displays: vec![
            logical(-1920, 100, 2_000_000, true, vec![assignment("DP-7", "3840x2160@59.997")]),
            logical(0, 100, 2_000_000, false, vec![assignment("DP-8", "3840x2160@59.997")]),
        ],
    };
    normalize(&mut layout, &monitors);
    let once = layout.clone();
    normalize(&mut layout, &monitors);
    assert_eq!(layout, once);

    let mut unresolved = DisplayLayout {
        layout_mode: LayoutMode::Logical,
        logical_displays: vec![logical(-50, 70, 2_000_000, true, vec![assignment("DP-99", "3840x2160@59.997")])],
    };
    let before = unresolved.clone();
    normalize(&mut unresolved, &monitors);
    assert_eq!(unresolved, before);
}
