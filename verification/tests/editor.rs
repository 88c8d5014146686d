use monitor_layout::editor::{
    add_mirror_member, arrow_step, ArrowKey, cycle_selection, disable_display, split_member, enable_monitor, layout_rects, nudge_selected, set_mode, set_resolution,
    settle_display,
};
use monitor_layout::fixtures::fixture;
use monitor_layout::geometry::Rect;
use monitor_layout::validation::validate;

#[test]
fn tab_cycles_through_displays() {
    assert_eq!(cycle_selection(None, 3, false), Some(0));
    assert_eq!(cycle_selection(None, 3, true), Some(2));
    assert_eq!(cycle_selection(Some(2), 3, false), Some(0));
    assert_eq!(cycle_selection(Some(0), 3, true), Some(2));
    assert_eq!(cycle_selection(Some(1), 0, false), Some(1));
    assert_eq!(cycle_selection(None, 0, true), None);
}

#[test]
fn rects_fall_back_to_placeholder_cards() {
    let s = fixture("dual-extended");
    let mut layout = s.layout.clone();
    assert_eq!(layout_rects(&s, &layout), vec![Rect::new(0, 0, 1920, 1080), Rect::new(1920, 0, 1920, 1080)]);
    layout.logical_displays[1].monitors[0].mode_id = "nonexistent".into();
    assert_eq!(layout_rects(&s, &layout)[1], Rect::new(1920, 0, 640, 360));
}

#[test]
fn dropped_display_settles_next_to_the_others() {
    let s = fixture("dual-extended");
    let mut layout = s.layout.clone();
    layout.logical_displays[1].x = 2500;
    layout.logical_displays[1].y = 300;
    settle_display(&s, &mut layout, 1);
    assert_eq!((layout.logical_displays[1].x, layout.logical_displays[1].y), (1920, 300));
    assert!(validate(&s.monitors, &layout).is_empty());
}

#[test]
fn arrow_keys_nudge_then_settle() {
    let s = fixture("dual-extended");
    let mut layout = s.layout.clone();
    nudge_selected(&s, &mut layout, Some(1), 0, 40);
    assert_eq!((layout.logical_displays[1].x, layout.logical_displays[1].y), (1920, 40));
    let before = layout.clone();
    nudge_selected(&s, &mut layout, None, 10, 10);
    assert_eq!(layout, before);
}

#[test]
fn disabling_keeps_one_primary_and_never_the_last_display() {
    let s = fixture("dual-extended");
    let mut layout = s.layout.clone();
    assert!(disable_display(&s, &mut layout, 0));
    assert_eq!(layout.logical_displays.len(), 1);
    assert!(layout.logical_displays[0].primary);
    assert_eq!(layout.logical_displays[0].x, 0);
    assert!(!disable_display(&s, &mut layout, 0));
    assert_eq!(layout.logical_displays.len(), 1);
}

#[test]
fn enabling_places_monitor_on_the_right() {
    let s = fixture("dual-extended");
    let mut layout = s.layout.clone();
    layout.logical_displays.pop();
    enable_monitor(&s, &mut layout, "DP-2");
    assert_eq!(layout.logical_displays.len(), 2);
    let added = &layout.logical_displays[1];
    assert_eq!((added.x, added.y), (1920, 0));
    assert_eq!(added.monitors[0].mode_id, "3840x2160@59.997");
    assert_eq!(added.scale, 2_000_000);
    assert!(!added.primary);
    let before = layout.clone();
    enable_monitor(&s, &mut layout, "DP-99");
    assert_eq!(layout, before);
}

#[test]
fn resolution_change_picks_best_mode_and_valid_scale() {
    let s = fixture("dual-extended");
    let mut layout = s.layout.clone();
    set_resolution(&s, &mut layout, 1, 1920, 1080);
    let d = &layout.logical_displays[1];
    assert_eq!(d.monitors[0].mode_id, "1920x1080@60.000");
    assert_eq!(d.scale, 1_000_000);
    let before = layout.clone();
    set_resolution(&s, &mut layout, 7, 1920, 1080);
    assert_eq!(layout, before);
}

#[test]
fn mode_change_targets_one_connector() {
    let s = fixture("dual-mirrored");
    let mut layout = s.layout.clone();
    set_mode(&mut layout, 0, "DP-2", "3840x2160@30.000");
    assert_eq!(layout.logical_displays[0].monitors[0].mode_id, "3840x2160@59.997");
    assert_eq!(layout.logical_displays[0].monitors[1].mode_id, "3840x2160@30.000");
}

#[test]
fn splitting_a_member_out_of_a_mirror_group() {
    let s = fixture("dual-mirrored");
    let mut layout = s.layout.clone();
    let before = layout.clone();
    assert!(split_member(&s, &mut layout, 0, 5).is_none());
    assert!(split_member(&s, &mut layout, 3, 0).is_none());
    assert_eq!(layout, before);
    assert!(matches!(split_member(&s, &mut layout, 0, 1), Some(Ok(()))));
    assert_eq!(layout.logical_displays.len(), 2);
    assert_eq!(layout.logical_displays[0].monitors.len(), 1);
    assert_eq!(layout.logical_displays[1].monitors[0].connector, "DP-2");
}

#[test]
fn adding_a_mirror_member_keeps_the_group_selected() {
    let s = fixture("dual-extended");
    let mut layout = s.layout.clone();
    let before = layout.clone();
    assert!(add_mirror_member(&s, &mut layout, 7, "DP-1").is_none());
    assert_eq!(layout, before);
    assert!(matches!(add_mirror_member(&s, &mut layout, 1, "DP-9"), Some(Err(_))));
    assert_eq!(layout, before);
    assert!(matches!(add_mirror_member(&s, &mut layout, 1, "DP-1"), Some(Ok(Some(0)))));
    assert_eq!(layout.logical_displays.len(), 1);
    assert_eq!(layout.logical_displays[0].monitors.len(), 2);
}

#[test]
fn arrow_keys_step_eight_or_sixty_four() {
    assert_eq!(arrow_step(ArrowKey::Left, false), (-8, 0));
    assert_eq!(arrow_step(ArrowKey::Down, false), (0, 8));
    assert_eq!(arrow_step(ArrowKey::Right, true), (64, 0));
    assert_eq!(arrow_step(ArrowKey::Up, true), (0, -64));
}
