use monitor_layout::fixtures::fixture;
use monitor_layout::report::{format_timestamp, pretty_name, pseudonym, redact, timestamp};

#[test]
fn pseudonym_is_stable_fnv1a() {
    assert_eq!(pseudonym("sn", ""), "");
    assert_eq!(pseudonym("sn", "a"), "sn-8601ec8c");
    assert_eq!(pseudonym("sn", "0x88888800"), pseudonym("sn", "0x88888800"));
    assert_ne!(pseudonym("sn", "0x0004ee0e"), pseudonym("sn", "0x0003e924"));
    assert_eq!(pseudonym("sn", "0x0004ee0e").len(), 11);
}

#[test]
fn redaction_replaces_serials_and_drops_unknown_properties() {
    let mut s = fixture("unknown-properties");
    let before = s.clone();
    redact(&mut s);
    assert_eq!(s.monitors[0].identity.serial, pseudonym("sn", "0x0001"));
    assert!(s.monitors[0].extra.is_empty());
    assert_eq!(s.monitors[0].identity.connector, "DP-1");
    assert_eq!(s.layout, before.layout);
    assert_eq!(s.monitors[0].modes, before.monitors[0].modes);
}

#[test]
fn timestamps_wrap_every_hundred_thousand_seconds() {
    assert_eq!(format_timestamp(1_700_000_123), "t+123s");
    assert_eq!(format_timestamp(42), "t+42s");
    let now = timestamp();
    assert!(now.starts_with("t+") && now.ends_with('s'));
}

#[test]
fn os_name_comes_from_pretty_name() {
    let os = "NAME=\"Fedora Linux\"\nPRETTY_NAME=\"Fedora Linux 43 (Workstation Edition)\"\nID=fedora\n";
    assert_eq!(pretty_name(os), "Fedora Linux 43 (Workstation Edition)");
    assert_eq!(pretty_name("ID=arch\r\nPRETTY_NAME=Arch Linux\r\n"), "Arch Linux");
    assert_eq!(pretty_name("ID=void\n"), "unknown");
    assert_eq!(pretty_name(""), "unknown");
    assert_eq!(pretty_name("PRETTY_NAME=\"\"\"quoted\"\""), "quoted");
}
