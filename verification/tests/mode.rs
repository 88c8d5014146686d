use monitor_layout::mode::{
    aspect_ratio_label, format_refresh, format_resolution, format_scale_percent, refresh_eq,
    MonitorMode,
};

fn mode(w: i32, h: i32, micro_hz: i64) -> MonitorMode {
    MonitorMode {
        id: format!("{w}x{h}@{:.3}", micro_hz as f64 / 1e6),
        width: w,
        height: h,
        refresh_micro_hz: micro_hz,
        preferred_scale: 1_000_000,
        supported_scales: vec![1_000_000, 1_250_000, 1_500_000, 2_000_000],
        is_current: false,
        is_preferred: false,
        is_interlaced: false,
        refresh_rate_mode: None,
        extra: Vec::new(),
    }
}

#[test]
fn refresh_comparisons_distinguish_close_rates() {
    assert!(!refresh_eq(59_940_000, 59_950_000));
    assert!(refresh_eq(59_997_000, 59_997_100));
    assert!(!refresh_eq(59_940_000, 60_000_000));
}

#[test]
fn scale_support() {
    let m = mode(3840, 2160, 59_997_000);
    assert!(m.supports_scale(1_250_000));
    assert!(!m.supports_scale(1_750_000));
    assert_eq!(m.closest_supported_scale(1_240_000), Some(1_250_000));
    assert_eq!(m.closest_supported_scale(1_300_000), Some(1_250_000));
    assert_eq!(m.closest_supported_scale(1_750_000), None);
}

#[test]
fn formatting() {
    assert_eq!(format_refresh(59_940_000), "59.94\u{2009}Hz");
    assert_eq!(format_resolution(3840, 2160), "3840 × 2160");
    assert_eq!(aspect_ratio_label(3840, 2160), Some("16∶9"));
    assert_eq!(aspect_ratio_label(1920, 1200), Some("16∶10"));
    assert_eq!(aspect_ratio_label(1234, 771), None);
    assert_eq!(format_scale_percent(1_750_000), "175 %");
    assert_eq!(format_scale_percent(1_333_333), "133 %");
    assert_eq!(format_scale_percent(2_000_000), "200 %");
}

#[test]
fn refresh_is_rounded_to_two_decimals() {
    assert_eq!(format_refresh(60_000_000), "60.00\u{2009}Hz");
    assert_eq!(format_refresh(59_997_000), "60.00\u{2009}Hz");
    assert_eq!(format_refresh(144_001_000), "144.00\u{2009}Hz");
}

#[test]
fn mode_geometry() {
    let m = mode(2560, 1440, 59_951_000);
    assert_eq!(m.resolution(), (2560, 1440));
    assert_eq!(m.area(), 2560 * 1440);
}
