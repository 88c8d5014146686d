use monitor_layout::identity::MonitorIdentity;
use monitor_layout::mode::MonitorMode;
use monitor_layout::monitor::{parse_diagonal_inches, ColorMode, PhysicalMonitor, RgbRange};

fn mk_mode(w: i32, h: i32, micro_hz: i64, preferred: bool) -> MonitorMode {
    MonitorMode {
        id: format!("{w}x{h}@{:.3}", micro_hz as f64 / 1e6),
        width: w,
        height: h,
        refresh_micro_hz: micro_hz,
        preferred_scale: 1_000_000,
        supported_scales: vec![1_000_000, 1_250_000, 1_500_000, 2_000_000],
        is_current: preferred,
        is_preferred: preferred,
        is_interlaced: false,
        refresh_rate_mode: None,
        extra: Vec::new(),
    }
}

fn kvm_monitor() -> PhysicalMonitor {
    PhysicalMonitor {
        identity: MonitorIdentity::new("HDMI-1", "LTM", "Lontium semi", "0x88888800"),
        display_name: Some("LTM 5\"".into()),
        modes: vec![mk_mode(3840, 2160, 30_000_000, true), mk_mode(1920, 1080, 60_000_000, false)],
        is_builtin: false,
        is_underscanning: false,
        supports_underscanning: false,
        is_for_lease: false,
        color_mode: Some(ColorMode::Default),
        supported_color_modes: vec![ColorMode::Default, ColorMode::SdrNative],
        rgb_range: Some(RgbRange::Auto),
        min_refresh_rate: Some(24),
        physical_size_mm: None,
        extra: Vec::new(),
    }
}

#[test]
fn kvm_heuristic_flags_lontium() {
    assert!(kvm_monitor().is_likely_kvm());
}

#[test]
fn kvm_heuristic_spares_real_panels() {
    let lg = PhysicalMonitor {
        identity: MonitorIdentity::new("DP-7", "GSM", "LG HDR 4K", "0x0004ee0e"),
        display_name: Some("LG Electronics 27\"".into()),
        modes: vec![mk_mode(3840, 2160, 59_997_000, true)],
        is_builtin: false,
        is_underscanning: false,
        supports_underscanning: false,
        is_for_lease: false,
        color_mode: Some(ColorMode::Default),
        supported_color_modes: vec![ColorMode::Default, ColorMode::Bt2100, ColorMode::SdrNative],
        rgb_range: Some(RgbRange::Auto),
        min_refresh_rate: None,
        physical_size_mm: Some((600, 340)),
        extra: Vec::new(),
    };
    assert!(!lg.is_likely_kvm());
    assert!(lg.supports_hdr());
}

#[test]
fn best_mode_prefers_highest_refresh() {
    let mut m = kvm_monitor();
    m.modes.push(mk_mode(1920, 1080, 50_000_000, false));
    let best = m.best_mode_at(1920, 1080).unwrap();
    assert_eq!(best.refresh_micro_hz, 60_000_000);
}

#[test]
fn resolutions_sorted_desc() {
    let m = kvm_monitor();
    assert_eq!(m.resolutions(), vec![(3840, 2160), (1920, 1080)]);
}

#[test]
fn wire_enums_roundtrip() {
    assert_eq!(ColorMode::from_u32(1), Some(ColorMode::Bt2100));
    assert_eq!(RgbRange::from_u32(1), Some(RgbRange::Auto));
    assert_eq!(RgbRange::Auto.as_u32(), 1);
    assert_eq!(RgbRange::from_u32(0), None);
}

#[test]
fn diagonal_parsing() {
    assert_eq!(parse_diagonal_inches("LTM 5\""), Some(5));
    assert_eq!(parse_diagonal_inches("LG Electronics 27\""), Some(27));
    assert_eq!(parse_diagonal_inches("Dell U2720Q"), None);
}

#[test]
fn kvm_score_counts_each_signal() {
    assert_eq!(kvm_monitor().kvm_score(), 4);
    let mut capture = kvm_monitor();
    capture.identity = MonitorIdentity::new("HDMI-2", "ABC", "USB Capture", "AB12CD34");
    capture.display_name = None;
    assert_eq!(capture.kvm_score(), 2);
}

#[test]
fn vrr_and_mode_lookup() {
    let m = kvm_monitor();
    assert!(m.supports_vrr());
    assert_eq!(m.current_mode().unwrap().width, 3840);
    assert_eq!(m.preferred_mode().unwrap().refresh_micro_hz, 30_000_000);
    assert!(m.find_mode("1920x1080@60.000").is_some());
    assert!(m.find_mode("1920x1080@59.940").is_none());
    assert_eq!(m.refresh_rates_at(1920, 1080).len(), 1);
    assert_eq!(m.connector(), "HDMI-1");
}

#[test]
fn labels_and_wire_values() {
    assert_eq!(ColorMode::Bt2100.label(), "HDR (BT.2100)");
    assert_eq!(ColorMode::SdrNative.as_u32(), 2);
    assert_eq!(RgbRange::Limited.label(), "Limited");
    assert_eq!(RgbRange::Full.as_u32(), 2);
}

#[test]
fn refresh_rates_are_deduplicated_and_descending() {
    let mut m = kvm_monitor();
    m.modes = vec![
        mk_mode(1920, 1080, 60_000_000, false),
        mk_mode(1920, 1080, 144_000_000, false),
        mk_mode(1920, 1080, 60_000_000, false),
        mk_mode(2560, 1440, 75_000_000, false),
    ];
    m.modes[2].refresh_rate_mode = Some("variable".into());
    let rates: Vec<i64> = m.refresh_rates_at(1920, 1080).iter().map(|md| md.refresh_micro_hz).collect();
    assert_eq!(rates, vec![144_000_000, 60_000_000]);
    assert_eq!(m.refresh_rates_at(1920, 1080)[1].refresh_rate_mode, None);
}

#[test]
fn equal_sort_keys_keep_first_seen_order() {
    let mut m = kvm_monitor();
    m.modes = vec![
        mk_mode(0, 10, 60_000_000, false),
        mk_mode(1920, 1080, 60_000_000, false),
        mk_mode(0, 20, 60_000_000, false),
    ];
    assert_eq!(m.resolutions(), vec![(1920, 1080), (0, 10), (0, 20)]);
}
