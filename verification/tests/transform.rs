use monitor_layout::transform::Transform;

#[test]
fn wire_roundtrip() {
    for t in Transform::all() {
        assert_eq!(Transform::from_u32(t.as_u32()), Some(t));
    }
    assert_eq!(Transform::from_u32(8), None);
}

#[test]
fn flipped_numbering_matches_interface_doc() {
    assert_eq!(Transform::Flipped90.as_u32(), 5);
    assert_eq!(Transform::Flipped180.as_u32(), 6);
    assert_eq!(Transform::Flipped270.as_u32(), 7);
}

#[test]
fn dimension_swap() {
    assert_eq!(Transform::Rotate90.apply_to(3840, 2160), (2160, 3840));
    assert_eq!(Transform::Rotate180.apply_to(3840, 2160), (3840, 2160));
}

#[test]
fn names_follow_gdctl() {
    assert_eq!(Transform::Normal.name(), "normal");
    assert_eq!(Transform::Flipped90.name(), "flipped-90");
    assert_eq!(Transform::Rotate270.name(), "270");
    assert_eq!(Transform::basic().len(), 4);
    assert!(Transform::Flipped270.swaps_dimensions());
    assert!(!Transform::Flipped.swaps_dimensions());
}
