use monitor_layout::error::{friendly_rejection, BackendError, RejectionKind};

#[test]
fn classifies_known_mutter_messages() {
    let cases = [
        ("The requested configuration is based on stale information", RejectionKind::StaleSerial),
        ("Logical monitors not adjacent", RejectionKind::NotAdjacent),
        ("Logical monitors overlap", RejectionKind::Overlap),
        ("Config contains multiple primary logical monitors", RejectionKind::MultiplePrimary),
        ("Config is missing primary logical", RejectionKind::MissingPrimary),
        ("Scale 1.75 not valid for resolution 3840x2160", RejectionKind::InvalidScale),
        ("Scale not supported by backend", RejectionKind::InvalidScale),
        ("Invalid mode '800x600@56.000' specified", RejectionKind::InvalidMode),
        ("Monitors modes in logical monitor not equal", RejectionKind::MirrorModesUnequal),
        ("Invalid connector 'DP-9' specified", RejectionKind::UnknownMonitor),
        ("Monitor not found", RejectionKind::UnknownMonitor),
        ("Logical monitors positions are offset", RejectionKind::BadPosition),
        ("Invalid logical monitor position (-100, 0)", RejectionKind::BadPosition),
        ("Underscanning requested but unsupported", RejectionKind::Underscanning),
        ("Monitor configuration via D-Bus is disabled", RejectionKind::PolicyDisabled),
        ("something novel", RejectionKind::Other),
    ];
    for (message, expected) in cases {
        assert_eq!(RejectionKind::classify(message), expected, "{message}");
    }
}

#[test]
fn friendly_messages_are_not_dbus_dumps() {
    let err = BackendError::Rejected {
        kind: RejectionKind::MirrorModesUnequal,
        message: "Monitors modes in logical monitor not equal".into(),
    };
    let text = err.message();
    assert!(text.contains("compatible mirror resolution"));
    assert!(!text.contains("logical monitor"));
    assert!(err.technical_details().contains("Monitors modes"));
}

#[test]
fn apply_errors_become_rejections_or_dbus_failures() {
    let rejected = BackendError::from_apply_error(
        Some("org.freedesktop.DBus.Error.InvalidArgs".into()),
        Some("Logical monitors overlap".into()),
        "full description".into(),
    );
    assert!(matches!(rejected, BackendError::Rejected { kind: RejectionKind::Overlap, .. }));

    let denied = BackendError::from_apply_error(
        Some("org.freedesktop.DBus.Error.AccessDenied".into()),
        Some("Monitor configuration via D-Bus is disabled".into()),
        "denied".into(),
    );
    assert!(denied.is_access_denied());

    let other = BackendError::from_apply_error(
        Some("org.freedesktop.DBus.Error.ServiceUnknown".into()),
        None,
        "no such service".into(),
    );
    assert!(matches!(other, BackendError::Dbus { .. }));
    assert!(!other.is_access_denied());
    assert!(other.technical_details().contains("no such service"));
}

#[test]
fn every_rejection_kind_has_a_friendly_text() {
    for kind in [
        RejectionKind::StaleSerial,
        RejectionKind::PolicyDisabled,
        RejectionKind::NotAdjacent,
        RejectionKind::Overlap,
        RejectionKind::MultiplePrimary,
        RejectionKind::MissingPrimary,
        RejectionKind::InvalidScale,
        RejectionKind::InvalidMode,
        RejectionKind::MirrorModesUnequal,
        RejectionKind::UnknownMonitor,
        RejectionKind::BadPosition,
        RejectionKind::Underscanning,
    ] {
        assert!(!friendly_rejection(kind, "raw").is_empty());
        assert!(!kind.name().is_empty());
    }
    assert!(friendly_rejection(RejectionKind::Other, "raw detail").contains("raw detail"));
}

#[test]
fn parse_and_encode_errors_keep_their_text() {
    assert!(BackendError::Parse("bad reply".into()).message().contains("bad reply"));
    assert!(BackendError::Encode("bad value".into()).technical_details().contains("bad value"));
}
