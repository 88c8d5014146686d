use monitor_layout::identity::MonitorIdentity;
use monitor_layout::layout::{DisplayLayout, LayoutMode, LogicalDisplay, MonitorAssignment};
use monitor_layout::mode::MonitorMode;
use monitor_layout::monitor::PhysicalMonitor;
use monitor_layout::profile::{
    resolve_mode, resolve_monitor, DisplayProfile, IdentitySpec, ModeSpec, MonitorMatchOutcome, ProfileProblem,
};
use monitor_layout::state::DisplayState;
use monitor_layout::transform::Transform;

fn monitor(connector: &str, vendor: &str, product: &str, serial: &str) -> PhysicalMonitor {
    PhysicalMonitor {
        identity: MonitorIdentity::new(connector, vendor, product, serial),
        display_name: None,
        modes: vec![
            MonitorMode {
                id: "3840x2160@59.997".into(),
                width: 3840,
                height: 2160,
                refresh_micro_hz: 59_996_624,
                preferred_scale: 2_000_000,
                supported_scales: vec![1_000_000, 1_500_000, 2_000_000],
                is_current: true,
                is_preferred: true,
                is_interlaced: false,
                refresh_rate_mode: None,
                extra: Vec::new(),
            },
            MonitorMode {
                id: "1920x1080@60.000".into(),
                width: 1920,
                height: 1080,
                refresh_micro_hz: 60_000_000,
                preferred_scale: 1_000_000,
                supported_scales: vec![1_000_000, 1_250_000],
                is_current: false,
                is_preferred: false,
                is_interlaced: false,
                refresh_rate_mode: None,
                extra: Vec::new(),
            },
        ],
        is_builtin: false,
        is_underscanning: false,
        supports_underscanning: false,
        is_for_lease: false,
        color_mode: None,
        supported_color_modes: vec![],
        rgb_range: None,
        min_refresh_rate: None,
        physical_size_mm: None,
        extra: Vec::new(),
    }
}

fn member(connector: &str) -> MonitorAssignment {
    MonitorAssignment {
        connector: connector.into(),
        mode_id: "3840x2160@59.997".into(),
        color_mode: None,
        rgb_range: None,
        underscanning: None,
    }
}

fn state_two_lg() -> DisplayState {
    DisplayState {
        serial: 7,
        monitors: vec![
            monitor("DP-7", "GSM", "LG HDR 4K", "0x0004ee0e"),
            monitor("DP-8", "GSM", "LG HDR 4K", "0x0003e924"),
        ],
        layout: DisplayLayout {
            layout_mode: LayoutMode::Logical,
            logical_displays: vec![
                LogicalDisplay {
                    x: 0,
                    y: 0,
                    scale: 2_000_000,
                    transform: Transform::Normal,
                    primary: true,
                    monitors: vec![member("DP-7")],
                },
                LogicalDisplay {
                    x: 1920,
                    y: 0,
                    scale: 2_000_000,
                    transform: Transform::Normal,
                    primary: false,
                    monitors: vec![member("DP-8")],
                },
            ],
        },
        supports_changing_layout_mode: true,
        global_scale_required: false,
        supports_mirroring: None,
        extra: Vec::new(),
    }
}

#[test]
fn roundtrip_profile_resolves_after_connector_swap() {
    let state = state_two_lg();
    let profile = DisplayProfile::from_state("p1".into(), "Two LG".into(), &state, 1_000);

    let mut swapped = state.monitors.clone();
    swapped[0].identity.connector = "DP-5".into();
    swapped[1].identity.connector = "DP-6".into();

    let resolution = profile.resolve(&swapped);
    assert!(resolution.is_exact(), "problems: {:?}", resolution.problems);
    let primary = resolution.layout.primary().unwrap();
    assert_eq!(primary.monitors[0].connector, "DP-5");
}

#[test]
fn missing_monitor_is_reported_with_model_hint() {
    let state = state_two_lg();
    let profile = DisplayProfile::from_state("p1".into(), "Two LG".into(), &state, 0);
    let only_one = vec![monitor("DP-7", "GSM", "LG HDR 4K", "0x0004ee0e")];
    let resolution = profile.resolve(&only_one);
    assert!(!resolution.is_exact());
    assert!(matches!(
        &resolution.problems[0],
        ProfileProblem::Missing { similar_model_present: false, .. }
    ));

    let different_serial = vec![monitor("DP-7", "GSM", "LG HDR 4K", "0xdeadbeef")];
    let resolution = profile.resolve(&different_serial);
    let missing_with_hint = resolution
        .problems
        .iter()
        .filter(|p| matches!(p, ProfileProblem::Missing { similar_model_present: true, .. }))
        .count();
    assert_eq!(missing_with_hint, 2);
    assert!(resolution.problems.iter().any(|p| matches!(p, ProfileProblem::UnexpectedMonitor { .. })));
}

#[test]
fn duplicate_serials_use_connector_hint_then_report_ambiguity() {
    let twins = vec![monitor("HDMI-1", "AAA", "Twin", "123"), monitor("HDMI-2", "AAA", "Twin", "123")];
    let spec = IdentitySpec {
        vendor: "AAA".into(),
        product: "Twin".into(),
        serial: "123".into(),
        connector_hint: "HDMI-2".into(),
    };
    match resolve_monitor(&spec, &twins, &[]) {
        MonitorMatchOutcome::Unique(m) => assert_eq!(m.connector(), "HDMI-2"),
        _ => panic!("expected unique via hint"),
    }
    let spec_no_hint = IdentitySpec { connector_hint: "DP-9".into(), ..spec };
    assert!(matches!(
        resolve_monitor(&spec_no_hint, &twins, &[]),
        MonitorMatchOutcome::Ambiguous(c) if c == vec!["HDMI-1".to_owned(), "HDMI-2".to_owned()]
    ));
}

#[test]
fn edid_less_monitor_falls_back_to_connector() {
    let anon = vec![monitor("HDMI-1", "", "", "")];
    let spec = IdentitySpec {
        vendor: String::new(),
        product: String::new(),
        serial: String::new(),
        connector_hint: "HDMI-1".into(),
    };
    assert!(matches!(resolve_monitor(&spec, &anon, &[]), MonitorMatchOutcome::Unique(_)));
}

#[test]
fn mode_matching_uses_refresh_tolerance() {
    let m = monitor("DP-7", "GSM", "LG HDR 4K", "1");
    let id = resolve_mode(&m, &ModeSpec { width: 3840, height: 2160, refresh_milli_hz: 59_997 });
    assert_eq!(id.as_deref(), Some("3840x2160@59.997"));
    let none = resolve_mode(&m, &ModeSpec { width: 3840, height: 2160, refresh_milli_hz: 30_000 });
    assert_eq!(none, None);
}

#[test]
fn newly_connected_monitor_is_flagged_not_silently_disabled() {
    let state = state_two_lg();
    let profile = DisplayProfile::from_state("p1".into(), "Two LG".into(), &state, 0);
    let mut monitors = state.monitors.clone();
    monitors.push(monitor("HDMI-1", "LTM", "Lontium semi", "0x88888800"));
    let resolution = profile.resolve(&monitors);
    assert!(!resolution.is_exact());
    assert!(resolution.problems.iter().any(|p| matches!(
        p,
        ProfileProblem::UnexpectedMonitor { connector, .. } if connector == "HDMI-1"
    )));
    let resolution = profile.resolve(&state.monitors);
    assert!(resolution.is_exact());
}

#[test]
fn identity_spec_describes_the_panel() {
    let id = MonitorIdentity::new("DP-7", "GSM", "LG HDR 4K", "0x0004ee0e");
    let spec = IdentitySpec::from_identity(&id);
    assert_eq!(spec.connector_hint, "DP-7");
    assert!(spec.describe().contains("LG HDR 4K"));
}

#[test]
fn profile_records_each_enabled_monitor() {
    let state = state_two_lg();
    let profile = DisplayProfile::from_state("p1".into(), "Two LG".into(), &state, 5);
    assert_eq!(profile.required_identities().len(), 2);
    assert_eq!(profile.name, "Two LG");
}
