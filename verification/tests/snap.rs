use monitor_layout::geometry::Rect;
use monitor_layout::snap::{settle_rect, snap_rect, Axis, SnapGuide};

#[test]
fn snaps_left_edge_to_neighbours_right_edge() {
    let others = [Rect::new(0, 0, 1920, 1080)];
    let moving = Rect::new(1935, 12, 1920, 1080);
    let snapped = snap_rect(moving, &others, 24);
    assert_eq!((snapped.x, snapped.y), (1920, 0));
    assert_eq!(snapped.guides.len(), 2);
    assert!(snapped.guides.contains(&SnapGuide { axis: Axis::Vertical, position: 1920 }));
    assert!(snapped.guides.contains(&SnapGuide { axis: Axis::Horizontal, position: 0 }));
}

#[test]
fn does_not_snap_beyond_threshold() {
    let others = [Rect::new(0, 0, 1920, 1080)];
    let moving = Rect::new(1990, 500, 1920, 1080);
    let snapped = snap_rect(moving, &others, 24);
    assert_eq!((snapped.x, snapped.y), (1990, 500));
    assert!(snapped.guides.is_empty());
}

#[test]
fn settle_closes_gaps() {
    let others = [Rect::new(0, 0, 1920, 1080)];
    let dropped = Rect::new(2400, 200, 1920, 1080);
    let settled = settle_rect(dropped, &others);
    assert_eq!(settled, Rect::new(1920, 200, 1920, 1080));
}

#[test]
fn settle_resolves_overlap() {
    let others = [Rect::new(0, 0, 1920, 1080)];
    let dropped = Rect::new(1000, 10, 1920, 1080);
    let settled = settle_rect(dropped, &others);
    assert!(!settled.overlaps(&others[0]));
    assert!(settled.is_adjacent_to(&others[0]));
    assert_eq!(settled.x, 1920);
}

#[test]
fn settle_keeps_valid_position() {
    let others = [Rect::new(0, 0, 1920, 1080)];
    let dropped = Rect::new(1920, 0, 1000, 1000);
    assert_eq!(settle_rect(dropped, &others), dropped);
}

#[test]
fn settle_with_no_others_is_identity() {
    let dropped = Rect::new(77, 88, 100, 100);
    assert_eq!(settle_rect(dropped, &[]), dropped);
}

#[test]
fn settle_around_two_monitors_picks_nearest_side() {
    let others = [Rect::new(0, 0, 1920, 1080), Rect::new(1920, 0, 1920, 1080)];
    let dropped = Rect::new(2200, 700, 960, 540);
    let settled = settle_rect(dropped, &others);
    assert!(!settled.overlaps(&others[0]));
    assert!(!settled.overlaps(&others[1]));
    assert!(others.iter().any(|o| settled.is_adjacent_to(o)));
    assert_eq!(settled, Rect::new(2200, 1080, 960, 540));
}

#[test]
fn nearest_candidate_wins_on_each_axis() {
    let others = [Rect::new(0, 0, 1920, 1080)];
    let moving = Rect::new(-1910, 1075, 1920, 1080);
    let snapped = snap_rect(moving, &others, 24);
    assert_eq!((snapped.x, snapped.y), (-1920, 1080));
    assert_eq!(snapped.guides[0], SnapGuide { axis: Axis::Vertical, position: 0 });
    assert_eq!(snapped.guides[1], SnapGuide { axis: Axis::Horizontal, position: 1080 });
}

#[test]
fn settle_moves_as_little_as_possible() {
    let m = Rect::new(-60, 10, 100, 100);
    let others = [Rect::new(0, 0, 100, 100), Rect::new(-100, 0, 100, 50)];
    let r = settle_rect(m, &others);
    assert!(others.iter().all(|o| !r.overlaps(o)));
    assert!(others.iter().any(|o| r.is_adjacent_to(o)));
    let dx = i64::from(r.x - m.x);
    let dy = i64::from(r.y - m.y);
    assert!(dx * dx + dy * dy <= 3200, "settled at {r:?}");
}

#[test]
fn settled_position_is_kept_by_settling_again() {
    let others = [Rect::new(0, 0, 1920, 1080), Rect::new(1920, 0, 1920, 1080)];
    let r = settle_rect(Rect::new(900, 500, 1280, 1024), &others);
    assert_eq!(settle_rect(r, &others), r);
}
