use monitor_layout::geometry::{bounding_box, Rect};

#[test]
fn edge_touch_is_not_overlap() {
    let a = Rect::new(0, 0, 1920, 1080);
    let b = Rect::new(1920, 0, 1920, 1080);
    assert!(!a.overlaps(&b));
    assert!(a.is_adjacent_to(&b));
}

#[test]
fn interior_intersection_is_overlap() {
    let a = Rect::new(0, 0, 1920, 1080);
    let b = Rect::new(1919, 0, 1920, 1080);
    assert!(a.overlaps(&b));
}

#[test]
fn gap_is_neither_overlap_nor_adjacent() {
    let a = Rect::new(0, 0, 1920, 1080);
    let b = Rect::new(2000, 0, 1920, 1080);
    assert!(!a.overlaps(&b));
    assert!(!a.is_adjacent_to(&b));
}

#[test]
fn corner_touch_is_not_adjacent_in_mutter_50() {
    let a = Rect::new(0, 0, 100, 100);
    let b = Rect::new(100, 100, 100, 100);
    assert!(!a.is_adjacent_to(&b));
    assert!(!a.overlaps(&b));
}

#[test]
fn vertical_adjacency() {
    let a = Rect::new(0, 0, 1920, 1080);
    let b = Rect::new(500, 1080, 1920, 1080);
    assert!(a.is_adjacent_to(&b));
    assert!(b.is_adjacent_to(&a));
}

#[test]
fn bounding_box_spans_all() {
    let a = Rect::new(-10, 0, 20, 20);
    let b = Rect::new(50, 30, 10, 10);
    let bb = bounding_box(&[a, b]).unwrap();
    assert_eq!(bb, Rect::new(-10, 0, 70, 40));
}

#[test]
fn bounding_box_of_nothing_is_none() {
    assert_eq!(bounding_box(&[]), None);
}

#[test]
fn adjacency_and_overlap_are_symmetric() {
    let a = Rect::new(0, 0, 1920, 1080);
    let b = Rect::new(1920, 200, 1280, 1024);
    assert_eq!(a.is_adjacent_to(&b), b.is_adjacent_to(&a));
    assert_eq!(a.overlaps(&b), b.overlaps(&a));
}

#[test]
fn translation_keeps_size_and_contains_moves_along() {
    let a = Rect::new(10, 20, 100, 50);
    let t = a.translated(5, -20);
    assert_eq!(t, Rect::new(15, 0, 100, 50));
    assert!(a.contains(10, 20));
    assert!(!a.contains(110, 20));
    assert!(t.contains(15, 0));
    assert_eq!(a.right(), 110);
    assert_eq!(a.bottom(), 70);
    assert_eq!(a.center(), (60, 45));
}
