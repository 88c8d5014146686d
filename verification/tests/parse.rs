use monitor_layout::layout::LayoutMode;
use monitor_layout::monitor::ColorMode;
use monitor_layout::parse::{parse_state, PropValue, Props, RawMonitor, RawState};
use monitor_layout::transform::Transform;

fn prop(key: &str, value: PropValue, text: &str) -> (String, PropValue, String) {
    (key.to_owned(), value, text.to_owned())
}

fn raw_lg(connector: &str, serial: &str, current: bool) -> RawMonitor {
    let mode_props = |is_current: bool| {
        let mut p: Props = Vec::new();
        if is_current {
            p.push(prop("is-current", PropValue::Bool(true), "true"));
            p.push(prop("is-preferred", PropValue::Bool(true), "true"));
        }
        p
    };
    let props: Props = vec![
        prop("display-name", PropValue::Str("LG Electronics 27\"".into()), "'LG Electronics 27\"'"),
        prop("is-builtin", PropValue::Bool(false), "false"),
        prop("color-mode", PropValue::U32(0), "uint32 0"),
        prop("supported-color-modes", PropValue::Array(vec![Some(0), Some(2), Some(1)]), "[uint32 0, 2, 1]"),
        prop("rgb-range", PropValue::U32(1), "uint32 1"),
        prop("frobnication-level", PropValue::I32(9000), "9000"),
    ];
    (
        (connector.into(), "GSM".into(), "LG HDR 4K".into(), serial.into()),
        vec![
            (
                "3840x2160@59.997".into(),
                3840,
                2160,
                59_996_623,
                2_000_000,
                vec![1_000_000, 1_500_000, 2_000_000],
                mode_props(current),
            ),
            ("1920x1080@60.000".into(), 1920, 1080, 60_000_000, 1_000_000, vec![1_000_000], mode_props(false)),
        ],
        props,
    )
}

fn raw_state() -> RawState {
    let state_props: Props = vec![
        prop("layout-mode", PropValue::U32(1), "uint32 1"),
        prop("supports-changing-layout-mode", PropValue::Bool(true), "true"),
        prop("something-new", PropValue::Str("hello".into()), "'hello'"),
    ];
    (
        7,
        vec![raw_lg("DP-7", "0x0004ee0e", true), raw_lg("DP-8", "0x0003e924", true)],
        vec![
            (
                0,
                0,
                2_000_000,
                0,
                true,
                vec![("DP-7".into(), "GSM".into(), "LG HDR 4K".into(), "0x0004ee0e".into())],
                Vec::new(),
            ),
            (
                1920,
                0,
                2_000_000,
                1,
                false,
                vec![("DP-8".into(), "GSM".into(), "LG HDR 4K".into(), "0x0003e924".into())],
                Vec::new(),
            ),
        ],
        state_props,
    )
}

#[test]
fn parses_full_state() {
    let state = parse_state(&raw_state()).unwrap();
    assert_eq!(state.serial, 7);
    assert_eq!(state.monitors.len(), 2);
    assert_eq!(state.layout.logical_displays.len(), 2);
    assert_eq!(state.layout.layout_mode, LayoutMode::Logical);
    assert!(state.supports_changing_layout_mode);
    assert!(!state.global_scale_required);

    let dp7 = state.monitor("DP-7").unwrap();
    assert_eq!(dp7.display_name.as_deref(), Some("LG Electronics 27\""));
    assert_eq!(dp7.supported_color_modes.len(), 3);
    assert!(dp7.supports_hdr());
    assert!(!dp7.supports_underscanning);
    assert_eq!(dp7.current_mode().unwrap().id, "3840x2160@59.997");

    let second = &state.layout.logical_displays[1];
    assert_eq!(second.transform, Transform::Rotate90);
    assert_eq!(second.monitors[0].mode_id, "3840x2160@59.997");
    assert_eq!(second.monitors[0].color_mode, Some(ColorMode::Default));
    assert_eq!(second.monitors[0].underscanning, None);
}

#[test]
fn unknown_properties_are_preserved_not_fatal() {
    let state = parse_state(&raw_state()).unwrap();
    let dp7 = state.monitor("DP-7").unwrap();
    assert!(dp7.extra.iter().any(|(k, _)| k == "frobnication-level"));
    assert!(state.extra.iter().any(|(k, _)| k == "something-new"));
}

#[test]
fn missing_current_mode_is_an_error() {
    let mut raw = raw_state();
    for mode in &mut raw.1[0].1 {
        mode.6.clear();
    }
    let err = parse_state(&raw).unwrap_err();
    assert!(err.message().contains("no current mode"), "{err:?}");
}

#[test]
fn invalid_transform_is_an_error() {
    let mut raw = raw_state();
    raw.2[0].3 = 42;
    assert!(parse_state(&raw).is_err());
}

#[test]
fn unknown_monitor_in_logical_monitor_is_an_error() {
    let mut raw = raw_state();
    raw.2[1].5[0].0 = "DP-99".into();
    let err = parse_state(&raw).unwrap_err();
    assert!(err.message().contains("DP-99"), "{err:?}");
}

#[test]
fn long_unknown_values_are_shortened() {
    let mut raw = raw_state();
    let long: String = "x".repeat(250);
    raw.3.push(prop("huge", PropValue::Other, &long));
    let state = parse_state(&raw).unwrap();
    let (_, text) = state.extra.iter().find(|(k, _)| k == "huge").unwrap();
    assert_eq!(text.chars().count(), 201);
    assert!(text.ends_with('…'));
}

#[test]
fn long_unknown_values_are_cut_after_two_hundred_bytes() {
    let mut raw = raw_state();
    let long: String = "é".repeat(150);
    raw.3.push(prop("wide", PropValue::Other, &long));
    let short: String = "é".repeat(100);
    raw.3.push(prop("fits", PropValue::Other, &short));
    let state = parse_state(&raw).unwrap();
    let (_, text) = state.extra.iter().find(|(k, _)| k == "wide").unwrap();
    assert_eq!(text, &format!("{}…", "é".repeat(100)));
    let (_, kept) = state.extra.iter().find(|(k, _)| k == "fits").unwrap();
    assert_eq!(kept, &short);
}

#[test]
fn absent_properties_take_documented_defaults() {
    let mut raw = raw_state();
    raw.3.clear();
    raw.1[1].2.clear();
    let state = parse_state(&raw).unwrap();
    assert_eq!(state.layout.layout_mode, LayoutMode::Logical);
    assert!(!state.supports_changing_layout_mode);
    assert_eq!(state.supports_mirroring, None);
    let dp8 = state.monitor("DP-8").unwrap();
    assert_eq!(dp8.display_name, None);
    assert_eq!(dp8.color_mode, None);
    assert!(dp8.supported_color_modes.is_empty());
    assert!(!dp8.is_builtin);
}
