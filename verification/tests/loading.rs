use monitor_layout::fixtures::fixture;
use monitor_layout::loading::{
    delete_profile, duplicate_profile, loaded_layout, plan_profile_load, rename_profile, LoadPlan,
};
use monitor_layout::profile::DisplayProfile;

#[test]
fn exact_profile_loads_directly() {
    let s = fixture("dual-extended");
    let profiles = vec![
        DisplayProfile::from_state("a".into(), "Other".into(), &fixture("single"), 0),
        DisplayProfile::from_state("b".into(), "Desk".into(), &s, 0),
    ];
    match plan_profile_load(&profiles, "b", Some(&s)) {
        LoadPlan::Load { name, layout } => {
            assert_eq!(name, "Desk");
            assert_eq!(layout.logical_displays.len(), 2);
        }
        other => panic!("expected a direct load, got {other:?}"),
    }
}

#[test]
fn unknown_profile_or_missing_state_plans_nothing() {
    let s = fixture("dual-extended");
    let profiles = vec![DisplayProfile::from_state("b".into(), "Desk".into(), &s, 0)];
    assert!(matches!(plan_profile_load(&profiles, "zzz", Some(&s)), LoadPlan::Nothing));
    assert!(matches!(plan_profile_load(&profiles, "b", None), LoadPlan::Nothing));
}

#[test]
fn partial_match_asks_first() {
    let s = fixture("dual-extended");
    let profiles = vec![DisplayProfile::from_state("b".into(), "Desk".into(), &s, 0)];
    let mut only_one = s.clone();
    only_one.monitors.truncate(1);
    match plan_profile_load(&profiles, "b", Some(&only_one)) {
        LoadPlan::Confirm { name, problems, can_partial, layout } => {
            assert_eq!(name, "Desk");
            assert!(!problems.is_empty());
            assert!(can_partial);
            assert_eq!(layout.logical_displays.len(), 1);
        }
        other => panic!("expected a confirmation, got {other:?}"),
    }
}

#[test]
fn loaded_layout_is_reanchored() {
    let s = fixture("dual-extended");
    let mut shifted = s.layout.clone();
    for d in shifted.logical_displays.iter_mut() {
        d.x += 100;
        d.y += 50;
    }
    assert_eq!(loaded_layout(None, shifted.clone()), shifted);
    let r = loaded_layout(Some(&s), shifted);
    assert_eq!((r.logical_displays[0].x, r.logical_displays[0].y), (0, 0));
    assert_eq!(r.logical_displays[1].x, 1920);
}

#[test]
fn renaming_refuses_blank_names_and_stamps_the_time() {
    let s = fixture("dual-extended");
    let mut profiles = vec![
        DisplayProfile::from_state("a".into(), "Desk".into(), &s, 1),
        DisplayProfile::from_state("b".into(), "Couch".into(), &s, 1),
    ];
    assert!(!rename_profile(&mut profiles, "a", "   ".into(), 50));
    assert_eq!(profiles[0].name, "Desk");
    assert!(!rename_profile(&mut profiles, "zzz", "New".into(), 50));
    assert!(rename_profile(&mut profiles, "b", "Sofa".into(), 60));
    assert_eq!(profiles[1].name, "Sofa");
    assert_eq!(profiles[1].modified_unix, 60);
    assert_eq!(profiles[1].created_unix, 1);
    assert_eq!(profiles[0].modified_unix, 1);
}

#[test]
fn duplicating_appends_a_stamped_copy() {
    let s = fixture("dual-extended");
    let mut profiles = vec![DisplayProfile::from_state("a".into(), "Desk".into(), &s, 1)];
    assert!(!duplicate_profile(&mut profiles, "zzz", "c".into(), 9));
    assert_eq!(profiles.len(), 1);
    assert!(duplicate_profile(&mut profiles, "a", "c".into(), 9));
    assert_eq!(profiles.len(), 2);
    assert_eq!(profiles[1].id, "c");
    assert_eq!(profiles[1].name, "Desk (copy)");
    assert_eq!((profiles[1].created_unix, profiles[1].modified_unix), (9, 9));
    assert_eq!(profiles[1].logical_displays, profiles[0].logical_displays);
}

#[test]
fn deleting_removes_every_profile_with_the_id() {
    let s = fixture("dual-extended");
    let mut profiles = vec![
        DisplayProfile::from_state("a".into(), "One".into(), &s, 1),
        DisplayProfile::from_state("b".into(), "Two".into(), &s, 1),
        DisplayProfile::from_state("a".into(), "Three".into(), &s, 1),
    ];
    delete_profile(&mut profiles, "a");
    assert_eq!(profiles.len(), 1);
    assert_eq!(profiles[0].name, "Two");
    delete_profile(&mut profiles, "zzz");
    assert_eq!(profiles.len(), 1);
}
