use monitor_layout::identity::MonitorIdentity;
use monitor_layout::monitor::PhysicalMonitor;
use monitor_layout::prefs::{default_confirm_seconds, AppPrefs, MonitorPrefs, DEFAULT_CONFIRM_SECONDS};

fn kvm() -> PhysicalMonitor {
    PhysicalMonitor {
        identity: MonitorIdentity::new("HDMI-1", "LTM", "Lontium semi", "0x88888800"),
        display_name: Some("LTM 5\"".into()),
        modes: vec![],
        is_builtin: false,
        is_underscanning: false,
        supports_underscanning: false,
        is_for_lease: false,
        color_mode: None,
        supported_color_modes: vec![],
        rgb_range: None,
        min_refresh_rate: None,
        physical_size_mm: None,
        extra: Vec::new(),
    }
}

#[test]
fn kvm_override_beats_heuristic() {
    let monitor = kvm();
    let mut prefs = AppPrefs::default();
    assert!(prefs.is_kvm(&monitor));
    prefs.set_kvm_override(&monitor.identity.stable_key(), Some(false));
    assert!(!prefs.is_kvm(&monitor));
    prefs.set_kvm_override(&monitor.identity.stable_key(), None);
    assert!(prefs.is_kvm(&monitor));
}

#[test]
fn empty_alias_clears_entry() {
    let monitor = kvm();
    let mut prefs = AppPrefs::default();
    prefs.set_alias(&monitor.identity.stable_key(), Some("  ".into()));
    assert!(prefs.monitors.is_empty());
}

#[test]
fn alias_wins_over_display_name() {
    let monitor = kvm();
    let mut prefs = AppPrefs::default();
    assert_eq!(prefs.display_name(&monitor), "LTM 5\"");
    prefs.set_alias(&monitor.identity.stable_key(), Some("KVM".into()));
    assert_eq!(prefs.display_name(&monitor), "KVM");
    assert_eq!(prefs.monitor(&monitor.identity.stable_key()).unwrap().alias.as_deref(), Some("KVM"));
}

#[test]
fn clearing_every_field_drops_the_entry() {
    let key = kvm().identity.stable_key();
    let mut prefs = AppPrefs::default();
    prefs.set_alias(&key, Some("KVM".into()));
    prefs.set_kvm_override(&key, Some(true));
    assert_eq!(prefs.monitors.len(), 1);
    prefs.set_alias(&key, None);
    assert_eq!(prefs.monitors.len(), 1);
    prefs.set_kvm_override(&key, None);
    assert!(prefs.monitors.is_empty());
    assert!(prefs.monitor(&key).is_none());
}

#[test]
fn display_name_falls_back_to_model_then_connector() {
    let prefs = AppPrefs::default();
    let mut m = kvm();
    m.display_name = None;
    assert_eq!(prefs.display_name(&m), "LTM Lontium semi");
    m.identity = MonitorIdentity::new("HDMI-1", "", "", "");
    assert_eq!(prefs.display_name(&m), "HDMI-1");
}

#[test]
fn defaults() {
    let prefs = AppPrefs::default();
    assert_eq!(prefs.confirm_seconds, 30);
    assert_eq!(default_confirm_seconds(), DEFAULT_CONFIRM_SECONDS);
    assert_eq!(MonitorPrefs::default(), MonitorPrefs { alias: None, is_kvm: None });
}
