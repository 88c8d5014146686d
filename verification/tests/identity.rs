use monitor_layout::identity::{MatchLevel, MonitorIdentity};

fn lg(connector: &str, serial: &str) -> MonitorIdentity {
    MonitorIdentity::new(connector, "GSM", "LG HDR 4K", serial)
}

#[test]
fn full_edid_match_beats_model_match() {
    let a = lg("DP-7", "0x0004ee0e");
    let b = lg("DP-5", "0x0004ee0e");
    let c = lg("DP-8", "0x0003e924");
    assert_eq!(a.match_level(&b), MatchLevel::FullEdid);
    assert_eq!(a.match_level(&c), MatchLevel::Model);
}

#[test]
fn connector_fallback_when_no_edid() {
    let a = MonitorIdentity::new("HDMI-1", "", "", "");
    let b = MonitorIdentity::new("HDMI-1", "LTM", "Lontium semi", "0x88888800");
    assert_eq!(a.match_level(&b), MatchLevel::Connector);
    assert_eq!(a.stable_key(), "connector:HDMI-1");
    assert!(b.has_edid());
}

#[test]
fn identical_models_have_distinct_stable_keys() {
    let a = lg("DP-7", "0x0004ee0e");
    let b = lg("DP-8", "0x0003e924");
    assert_ne!(a.stable_key(), b.stable_key());
}

#[test]
fn synthetic_serials() {
    assert!(MonitorIdentity::new("HDMI-1", "LTM", "x", "0x88888800").serial_looks_synthetic());
    assert!(MonitorIdentity::new("HDMI-1", "LTM", "x", "0x00000000").serial_looks_synthetic());
    assert!(MonitorIdentity::new("HDMI-1", "LTM", "x", "").serial_looks_synthetic());
    assert!(!MonitorIdentity::new("DP-7", "GSM", "x", "0x0004ee0e").serial_looks_synthetic());
    assert!(!MonitorIdentity::new("HDMI-1", "AOC", "x", "AHLL19A000036").serial_looks_synthetic());
}

#[test]
fn stable_key_joins_edid_fields() {
    assert_eq!(lg("DP-7", "0x0004ee0e").stable_key(), "GSM/LG HDR 4K/0x0004ee0e");
}

#[test]
fn unrelated_monitors_do_not_match() {
    let a = MonitorIdentity::new("DP-1", "AAA", "One", "1");
    let b = MonitorIdentity::new("DP-2", "BBB", "Two", "2");
    assert_eq!(a.match_level(&b), MatchLevel::Unmatched);
    assert!(MatchLevel::Unmatched < MatchLevel::Connector);
    assert!(MatchLevel::Model < MatchLevel::FullEdid);
}

#[test]
fn alternating_pair_serial_is_synthetic() {
    assert!(MonitorIdentity::new("HDMI-1", "LTM", "x", "0x01010101").serial_looks_synthetic());
    assert!(MonitorIdentity::new("HDMI-1", "LTM", "x", " 0X00000000 ").serial_looks_synthetic());
}

#[test]
fn serial_groups_are_counted_in_bytes() {
    assert!(MonitorIdentity::new("HDMI-1", "X", "x", "ééé").serial_looks_synthetic());
    assert!(!MonitorIdentity::new("HDMI-1", "X", "x", "éabcd").serial_looks_synthetic());
    assert!(MonitorIdentity::new("HDMI-1", "X", "x", "ééé").serial_is_groupable());
    assert!(!MonitorIdentity::new("HDMI-1", "X", "x", "aébcd").serial_is_groupable());
    assert!(MonitorIdentity::new("HDMI-1", "X", "x", "aéb").serial_is_groupable());
}
