use monitor_layout::layout::{DisplayLayout, LayoutMode, LogicalDisplay, MonitorAssignment};
use monitor_layout::monitor::{ColorMode, RgbRange};
use monitor_layout::serialize::{wire_logical_monitors, wire_properties, WireValue};
use monitor_layout::transform::Transform;

fn prop<'a>(props: &'a [(String, WireValue)], key: &str) -> Option<&'a WireValue> {
    props.iter().find(|(k, _)| k == key).map(|(_, v)| v)
}

#[test]
fn serializes_partial_mirror_layout() {
    let layout = DisplayLayout {
        layout_mode: LayoutMode::Logical,
        logical_displays: vec![
            LogicalDisplay {
                x: 0,
                y: 0,
                scale: 2_000_000,
                transform: Transform::Normal,
                primary: true,
                monitors: vec![
                    MonitorAssignment {
                        connector: "DP-7".into(),
                        mode_id: "3840x2160@59.997".into(),
                        color_mode: Some(ColorMode::Default),
                        rgb_range: Some(RgbRange::Auto),
                        underscanning: None,
                    },
                    MonitorAssignment {
                        connector: "HDMI-1".into(),
                        mode_id: "3840x2160@30.000".into(),
                        color_mode: None,
                        rgb_range: None,
                        underscanning: Some(false),
                    },
                ],
            },
            LogicalDisplay {
                x: 1920,
                y: 0,
                scale: 2_000_000,
                transform: Transform::Rotate270,
                primary: false,
                monitors: vec![MonitorAssignment {
                    connector: "DP-8".into(),
                    mode_id: "3840x2160@59.997".into(),
                    color_mode: None,
                    rgb_range: None,
                    underscanning: None,
                }],
            },
        ],
    };

    let wire = wire_logical_monitors(&layout);
    assert_eq!(wire.len(), 2);
    let (x, y, scale, transform, primary, monitors) = &wire[0];
    assert_eq!((*x, *y, *scale, *transform, *primary), (0, 0, 2_000_000, 0, true));
    assert_eq!(monitors.len(), 2);
    assert_eq!(monitors[0].0, "DP-7");
    assert_eq!(monitors[0].1, "3840x2160@59.997");
    assert_eq!(prop(&monitors[0].2, "color-mode"), Some(&WireValue::U32(0)));
    assert_eq!(prop(&monitors[0].2, "rgb-range"), Some(&WireValue::U32(1)));
    assert!(prop(&monitors[0].2, "underscanning").is_none());
    assert_eq!(prop(&monitors[1].2, "underscanning"), Some(&WireValue::Bool(false)));
    assert_eq!(wire[1].3, 3);

    let props = wire_properties(LayoutMode::Logical, true);
    assert_eq!(prop(&props, "layout-mode"), Some(&WireValue::U32(1)));
    assert!(wire_properties(LayoutMode::Logical, false).is_empty());
}
