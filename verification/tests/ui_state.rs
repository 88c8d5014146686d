use monitor_layout::fixtures::fixture;
use monitor_layout::prefs::AppPrefs;
use monitor_layout::ui_state::{display_numbers, is_dirty, is_kvm, name_of, problems};
use monitor_layout::validation::LayoutProblem;

#[test]
fn numbers_follow_reading_order() {
    let s = fixture("triple-extended");
    let mut layout = s.layout.clone();
    assert_eq!(display_numbers(Some(&layout)), vec![1, 2, 3]);
    layout.logical_displays.swap(0, 2);
    assert_eq!(display_numbers(Some(&layout)), vec![3, 2, 1]);
    layout.logical_displays[0].x = 0;
    layout.logical_displays[0].y = 1080;
    layout.logical_displays[2].x = 0;
    assert_eq!(display_numbers(Some(&layout)), vec![2, 3, 1]);
    assert!(display_numbers(None).is_empty());
}

#[test]
fn equal_positions_keep_list_order() {
    let mut layout = fixture("dual-extended").layout;
    layout.logical_displays[1].x = 0;
    assert_eq!(display_numbers(Some(&layout)), vec![1, 2]);
}

#[test]
fn shifted_layout_is_not_dirty() {
    let s = fixture("dual-extended");
    let mut edited = s.layout.clone();
    assert!(!is_dirty(Some(&s), Some(&edited)));
    edited.logical_displays[0].x += 100;
    edited.logical_displays[1].x += 100;
    assert!(!is_dirty(Some(&s), Some(&edited)));
    edited.logical_displays[1].y = 50;
    assert!(is_dirty(Some(&s), Some(&edited)));
    assert!(!is_dirty(None, Some(&edited)));
}

#[test]
fn editor_hides_auto_fixable_problems() {
    let s = fixture("dual-extended");
    let mut edited = s.layout.clone();
    edited.logical_displays[0].x = -1920;
    edited.logical_displays[1].x = 0;
    assert!(problems(Some(&s), Some(&edited)).is_empty());
    edited.logical_displays[1].x = 500;
    assert_eq!(problems(Some(&s), Some(&edited)), vec![LayoutProblem::NotAdjacent]);
    assert!(problems(None, Some(&edited)).is_empty());
}

#[test]
fn names_and_kvm_status_by_connector() {
    let s = fixture("mirror-plus-extended");
    let mut prefs = AppPrefs::default();
    assert_eq!(name_of(Some(&s), &prefs, "DP-7"), "LG Electronics 27\"");
    assert_eq!(name_of(Some(&s), &prefs, "DP-99"), "DP-99");
    assert_eq!(name_of(None, &prefs, "DP-7"), "DP-7");
    assert!(is_kvm(Some(&s), &prefs, "HDMI-1"));
    assert!(!is_kvm(Some(&s), &prefs, "DP-99"));
    let key = s.monitor("HDMI-1").unwrap().identity.stable_key();
    prefs.set_alias(&key, Some("KVM".into()));
    prefs.set_kvm_override(&key, Some(false));
    assert_eq!(name_of(Some(&s), &prefs, "HDMI-1"), "KVM");
    assert!(!is_kvm(Some(&s), &prefs, "HDMI-1"));
}
