use monitor_layout::fixtures::fixture;
use monitor_layout::panel::{panel_choices, resolution_label};
use monitor_layout::prefs::AppPrefs;

#[test]
fn panel_offers_partners_resolutions_and_rates() {
    let s = fixture("dual-extended");
    let prefs = AppPrefs::default();
    let c = panel_choices(&s, &s.layout, &prefs, 0);
    assert_eq!(c.mirror_partners.len(), 1);
    assert_eq!(c.mirror_partners[0].0, "DP-2");
    assert!(c.mirror_partners[0].1.ends_with(" (DP-2)"));
    assert_eq!(c.resolutions.len(), c.resolution_labels.len());
    let sel = c.selected_resolution.expect("current size is offered");
    assert_eq!(c.resolutions[sel], (3840, 2160));
    assert_eq!(c.resolution_labels[sel], "3840 × 2160 (16∶9)");
    assert_eq!(c.refresh_modes.len(), c.refresh_labels.len());
    if let Some(k) = c.selected_refresh {
        assert_eq!(c.refresh_modes[k], "3840x2160@59.997");
    }
}

#[test]
fn mirror_group_offers_common_resolutions() {
    let s = fixture("dual-mirrored");
    let prefs = AppPrefs::default();
    let c = panel_choices(&s, &s.layout, &prefs, 0);
    assert!(c.mirror_partners.is_empty());
    assert!(!c.resolutions.is_empty());
    assert!(c.refresh_modes.is_empty());
    assert_eq!(c.selected_refresh, None);
}

#[test]
fn resolution_labels_name_known_ratios() {
    assert_eq!(resolution_label(1920, 1080), "1920 × 1080 (16∶9)");
    assert_eq!(resolution_label(1000, 777), "1000 × 777");
}
