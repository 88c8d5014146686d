use monitor_layout::paths::{config_dir_from, prefs_file, profiles_file, state_dir_from};

fn b(s: &str) -> Vec<u8> {
    s.as_bytes().to_vec()
}

#[test]
fn config_dir_prefers_override_then_xdg_then_home() {
    assert_eq!(config_dir_from(Some(b("/tmp/cfg")), Some(b("/x")), Some(b("/home/u"))), Some(b("/tmp/cfg")));
    assert_eq!(config_dir_from(None, Some(b("/x")), Some(b("/home/u"))), Some(b("/x/monitor-layout")));
    assert_eq!(config_dir_from(None, Some(Vec::new()), Some(b("/home/u"))), Some(b("/home/u/.config/monitor-layout")));
    assert_eq!(config_dir_from(None, None, None), None);
}

#[test]
fn state_dir_falls_back_to_local_state() {
    assert_eq!(state_dir_from(None, None, Some(b("/home/u"))), Some(b("/home/u/.local/state/monitor-layout")));
    assert_eq!(state_dir_from(None, Some(b("/s/")), None), Some(b("/s/monitor-layout")));
}

#[test]
fn files_live_in_the_config_dir() {
    assert_eq!(profiles_file(Some(&b("/c"))), Some(b("/c/profiles.json")));
    assert_eq!(prefs_file(Some(&b("/c"))), Some(b("/c/prefs.json")));
    assert_eq!(prefs_file(Some(&b(""))), Some(b("prefs.json")));
    assert_eq!(prefs_file(None), None);
}

#[test]
fn non_utf8_directories_are_kept() {
    let raw = vec![b'/', b'h', 0xff, b'm'];
    let mut expected = raw.clone();
    expected.extend_from_slice(b"/.config/monitor-layout");
    assert_eq!(config_dir_from(None, None, Some(raw)), Some(expected));
}
