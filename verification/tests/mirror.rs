use monitor_layout::identity::MonitorIdentity;
use monitor_layout::mirror::{mirror_candidates, recommended, MirrorError};
use monitor_layout::mode::MonitorMode;
use monitor_layout::monitor::PhysicalMonitor;

fn monitor(connector: &str, modes: &[(i32, i32, i64, &[i64])]) -> PhysicalMonitor {
    PhysicalMonitor {
        identity: MonitorIdentity::new(connector, "TST", "Test", connector),
        display_name: None,
        modes: modes
            .iter()
            .enumerate()
            .map(|(i, (w, h, hz, scales))| MonitorMode {
                id: format!("{w}x{h}@{:.3}", *hz as f64 / 1e6),
                width: *w,
                height: *h,
                refresh_micro_hz: *hz,
                preferred_scale: 1_000_000,
                supported_scales: scales.to_vec(),
                is_current: i == 0,
                is_preferred: i == 0,
                is_interlaced: false,
                refresh_rate_mode: None,
                extra: Vec::new(),
            })
            .collect(),
        is_builtin: false,
        is_underscanning: false,
        supports_underscanning: false,
        is_for_lease: false,
        color_mode: None,
        supported_color_modes: vec![],
        rgb_range: None,
        min_refresh_rate: None,
        physical_size_mm: None,
        extra: Vec::new(),
    }
}

#[test]
fn kvm_and_lg_mirror_at_4k_with_mixed_refresh() {
    let lg = monitor(
        "DP-7",
        &[
            (3840, 2160, 59_997_000, &[1_000_000, 1_500_000, 2_000_000]),
            (3840, 2160, 30_000_000, &[1_000_000, 1_500_000, 2_000_000]),
            (1920, 1080, 60_000_000, &[1_000_000]),
        ],
    );
    let kvm = monitor(
        "HDMI-1",
        &[
            (3840, 2160, 30_000_000, &[1_000_000, 1_500_000, 2_000_000]),
            (1920, 1080, 60_000_000, &[1_000_000, 1_250_000]),
        ],
    );
    let candidates = mirror_candidates(&[&lg, &kvm]).unwrap();
    assert_eq!(candidates.len(), 2);
    let four_k = &candidates[0];
    assert_eq!((four_k.width, four_k.height), (3840, 2160));
    assert_eq!(four_k.members[0].refresh_micro_hz, 59_997_000);
    assert_eq!(four_k.members[1].refresh_micro_hz, 30_000_000);
    assert_eq!(four_k.min_refresh_micro_hz, 30_000_000);
    assert_eq!(four_k.common_scales, vec![1_000_000, 1_500_000, 2_000_000]);
    assert_eq!(recommended(&candidates).unwrap().width, 3840);
}

#[test]
fn no_common_resolution_is_explained() {
    let a = monitor("DP-1", &[(2560, 1440, 60_000_000, &[1_000_000])]);
    let b = monitor("DP-2", &[(1920, 1200, 60_000_000, &[1_000_000])]);
    let err = mirror_candidates(&[&a, &b]).unwrap_err();
    match err {
        MirrorError::NoCommonResolution(detail) => {
            assert_eq!(detail.natives.len(), 2);
            let msg = detail.message();
            assert!(msg.contains("DP-1: 2560×1440"));
            assert!(msg.contains("DP-2: 1920×1200"));
        }
        other => panic!("unexpected: {other:?}"),
    }
}

#[test]
fn identical_resolution_text_but_disjoint_scales() {
    let a = monitor("DP-1", &[(2560, 1440, 59_951_000, &[1_000_000, 1_500_000])]);
    let b = monitor("DP-2", &[(2560, 1440, 59_961_000, &[1_000_000, 1_250_000])]);
    let candidates = mirror_candidates(&[&a, &b]).unwrap();
    assert_eq!(candidates[0].common_scales, vec![1_000_000]);
    assert_eq!(candidates[0].members[0].refresh_micro_hz, 59_951_000);
    assert_eq!(candidates[0].members[1].refresh_micro_hz, 59_961_000);
}

#[test]
fn single_member_is_error() {
    let a = monitor("DP-1", &[(2560, 1440, 60_000_000, &[1_000_000])]);
    assert_eq!(mirror_candidates(&[&a]).unwrap_err(), MirrorError::TooFewMonitors);
}

#[test]
fn three_way_mirror() {
    let a = monitor(
        "DP-1",
        &[(3840, 2160, 60_000_000, &[1_000_000, 2_000_000]), (1920, 1080, 60_000_000, &[1_000_000])],
    );
    let b = monitor("DP-2", &[(1920, 1080, 59_940_000, &[1_000_000, 1_250_000])]);
    let c = monitor("HDMI-1", &[(1920, 1080, 50_000_000, &[1_000_000])]);
    let candidates = mirror_candidates(&[&a, &b, &c]).unwrap();
    assert_eq!(candidates.len(), 1);
    assert_eq!((candidates[0].width, candidates[0].height), (1920, 1080));
    assert_eq!(candidates[0].common_scales, vec![1_000_000]);
    assert_eq!(candidates[0].min_refresh_micro_hz, 50_000_000);
}

#[test]
fn candidates_are_ranked_by_area() {
    let a = monitor(
        "DP-1",
        &[(1920, 1080, 60_000_000, &[1_000_000]), (3840, 2160, 60_000_000, &[1_000_000])],
    );
    let b = monitor(
        "DP-2",
        &[(1920, 1080, 60_000_000, &[1_000_000]), (3840, 2160, 30_000_000, &[1_000_000])],
    );
    let candidates = mirror_candidates(&[&a, &b]).unwrap();
    assert_eq!(candidates.len(), 2);
    assert!(candidates[0].area() >= candidates[1].area());
    assert_eq!(candidates[0].width, 3840);
    assert_eq!(recommended(&[]), None);
}

#[test]
fn too_few_monitors_message() {
    assert!(!MirrorError::TooFewMonitors.message().is_empty());
}

#[test]
fn each_shared_resolution_has_one_candidate() {
    let a = monitor(
        "DP-1",
        &[
            (1920, 1080, 60_000_000, &[1_000_000]),
            (1920, 1080, 50_000_000, &[1_000_000]),
            (2560, 1440, 60_000_000, &[1_000_000]),
            (1280, 720, 60_000_000, &[1_000_000]),
        ],
    );
    let b = monitor(
        "DP-2",
        &[
            (1280, 720, 60_000_000, &[1_000_000]),
            (1920, 1080, 30_000_000, &[1_000_000]),
            (1920, 1080, 60_000_000, &[1_000_000]),
        ],
    );
    let candidates = mirror_candidates(&[&a, &b]).unwrap();
    let sizes: Vec<(i32, i32)> = candidates.iter().map(|c| (c.width, c.height)).collect();
    assert_eq!(sizes, vec![(1920, 1080), (1280, 720)]);
}
