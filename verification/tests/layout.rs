use monitor_layout::layout::{scale_size, LayoutMode};

#[test]
fn scale_size_rounds_half_away_from_zero() {
    assert_eq!(scale_size(3840, 2160, 2_000_000), (1920, 1080));
    assert_eq!(scale_size(3840, 2160, 1_500_000), (2560, 1440));
    assert_eq!(scale_size(2560, 1440, 1_500_000), (1707, 960));
    assert_eq!(scale_size(1920, 1080, 1_250_000), (1536, 864));
    assert_eq!(scale_size(3840, 2160, 1_750_000), (2194, 1234));
}

#[test]
fn layout_mode_wire_values() {
    assert_eq!(LayoutMode::Logical.as_u32(), 1);
    assert_eq!(LayoutMode::Physical.as_u32(), 2);
    assert_eq!(LayoutMode::from_u32(3), None);
}

#[test]
fn exact_halves_round_away_from_zero() {
    assert_eq!(scale_size(3, 5, 2_000_000), (2, 3));
    assert_eq!(scale_size(-3, 0, 2_000_000), (-2, 0));
}
