use monitor_layout::describe::{arrangement_label, client_verdict, identify_labels, or_dash, prepare_send, ClientVerdict, SendDecision};
use monitor_layout::fixtures::{fixture, lg27};
use monitor_layout::prefs::AppPrefs;

#[test]
fn arrangement_is_described_for_screen_readers() {
    let s = fixture("mirror-plus-extended");
    let prefs = AppPrefs::default();
    let label = arrangement_label(Some(&s), &prefs, &s.layout, Some(1));
    assert_eq!(
        label,
        "Monitor arrangement with 2 displays. Display 1: LG Electronics 27\" mirrored with LTM 5\", primary. \
         Display 2: LG Electronics 27\", selected. Use Tab to cycle displays and arrow keys to move the selected display."
    );
}

#[test]
fn identification_labels_number_each_member() {
    let s = fixture("mirror-plus-extended");
    let prefs = AppPrefs::default();
    let labels = identify_labels(Some(&s), &prefs, Some(&s.layout));
    assert_eq!(labels.len(), 3);
    assert_eq!(labels[0], ("DP-7".to_owned(), 1, "LG Electronics 27\"  +  LTM 5\"".to_owned()));
    assert_eq!(labels[1].0, "HDMI-1");
    assert_eq!(labels[1].1, 1);
    assert_eq!(labels[2], ("DP-8".to_owned(), 2, "LG Electronics 27\"".to_owned()));
    assert!(identify_labels(Some(&s), &prefs, None).is_empty());
}

#[test]
fn empty_values_show_a_dash() {
    assert_eq!(or_dash(""), "—");
    assert_eq!(or_dash("x"), "x");
}

#[test]
fn sending_checks_topology_and_problems() {
    let s = fixture("dual-extended");
    let mut edited = s.layout.clone();
    edited.logical_displays[0].x = 100;
    edited.logical_displays[1].x = 2020;
    match prepare_send(Some(&s), &s, &edited) {
        SendDecision::Send(serial, layout) => {
            assert_eq!(serial, s.serial);
            assert_eq!(layout.logical_displays[0].x, 0);
        }
        _ => panic!("expected a send"),
    }

    let mut unplugged = s.clone();
    unplugged.monitors = vec![lg27("DP-1", "0x0001")];
    assert!(matches!(prepare_send(Some(&unplugged), &s, &edited), SendDecision::MonitorsChanged));
    assert!(matches!(prepare_send(None, &s, &edited), SendDecision::MonitorsChanged));

    edited.logical_displays[1].x = 3000;
    assert!(matches!(prepare_send(Some(&s), &s, &edited), SendDecision::Invalid(p) if !p.is_empty()));
}

#[test]
fn client_check_separates_fixable_problems() {
    let s = fixture("dual-extended");
    assert_eq!(client_verdict(&s, &s.layout), ClientVerdict::Valid);
    let mut shifted = s.layout.clone();
    shifted.logical_displays[0].x = 10;
    shifted.logical_displays[1].x = 1930;
    assert!(matches!(client_verdict(&s, &shifted), ClientVerdict::ValidAfterNormalization(p) if p.len() == 1));
    shifted.logical_displays[1].x = 5000;
    assert!(matches!(client_verdict(&s, &shifted), ClientVerdict::Invalid(_)));
}
