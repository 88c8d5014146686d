//! Representative monitor topologies for tests and the mock backend.
//!
//! Modeled on two identical LG 27" 4K panels and a Lontium-based KVM that
//! caps 4K at 30 Hz, plus synthetic variations. Rates are in microhertz and
//! scales in millionths.
use vstd::prelude::*;
use crate::identity::{str_eq, MonitorIdentity};
use crate::layout::{
    assignments_of, assignments_view, displays_view, AssignmentView, DisplayLayout, DisplayView,
    LayoutMode, LayoutView, LogicalDisplay, MonitorAssignment,
};
use crate::mode::{extra_view, ModeView, MonitorMode};
use crate::monitor::{modes_view, ColorMode, MonitorView, PhysicalMonitor, RgbRange};
use crate::state::DisplayState;
use crate::transform::Transform;
use crate::units::SCALE_ONE;

verus! {

/// The mode a fixture describes: not current, preferred or interlaced yet;
/// the preferred scale is the first listed one.
pub open spec fn mode_spec(id: Seq<char>, w: i32, h: i32, refresh: i64, scales: Seq<i64>) -> ModeView {
    ModeView {
        id,
        width: w,
        height: h,
        refresh,
        preferred_scale: if scales.len() > 0 {
            scales[0]
        } else {
            SCALE_ONE
        },
        scales,
        is_current: false,
        is_preferred: false,
        is_interlaced: false,
        refresh_rate_mode: None,
        extra: Seq::empty(),
    }
}

/// A fixture mode.
pub fn mode(id: &str, w: i32, h: i32, refresh_micro_hz: i64, scales: &[i64]) -> (r: MonitorMode)
    ensures
        r@ == mode_spec(id@, w, h, refresh_micro_hz, scales@),
{
    let preferred_scale = if scales.len() > 0 {
        scales[0]
    } else {
        SCALE_ONE
    };
    let mut supported_scales: Vec<i64> = Vec::new();
    let mut i: usize = 0;
    while i < scales.len()
        invariant
            i <= scales@.len(),
            supported_scales@ == scales@.take(i as int),
        decreases scales@.len() - i,
    {
        supported_scales.push(scales[i]);
        i += 1;
        assert(supported_scales@ =~= scales@.take(i as int));
    }
    assert(scales@.take(scales@.len() as int) =~= scales@);
    let extra: Vec<(String, String)> = Vec::new();
    assert(extra_view(extra@) =~= Seq::empty());
    MonitorMode {
        id: id.to_owned(),
        width: w,
        height: h,
        refresh_micro_hz,
        preferred_scale,
        supported_scales,
        is_current: false,
        is_preferred: false,
        is_interlaced: false,
        refresh_rate_mode: None,
        extra,
    }
}

/// What a fixture monitor is, apart from the identity strings' storage.
pub ghost struct MonitorTemplate {
    pub connector: Seq<char>,
    pub vendor: Seq<char>,
    pub product: Seq<char>,
    pub serial: Seq<char>,
    pub display_name: Option<Seq<char>>,
    pub modes: Seq<ModeView>,
    pub supported_color_modes: Seq<ColorMode>,
    pub min_refresh_rate: Option<i32>,
    pub physical_size_mm: Option<(i32, i32)>,
    pub extra: Seq<(Seq<char>, Seq<char>)>,
}

/// A monitor is the one a template describes.
pub open spec fn fits(m: MonitorView, t: MonitorTemplate) -> bool {
    &&& m.identity.connector@ == t.connector
    &&& m.identity.vendor@ == t.vendor
    &&& m.identity.product@ == t.product
    &&& m.identity.serial@ == t.serial
    &&& m == MonitorView {
        identity: m.identity,
        display_name: t.display_name,
        modes: t.modes,
        is_builtin: false,
        is_underscanning: false,
        supports_underscanning: false,
        is_for_lease: false,
        color_mode: Some(ColorMode::Default),
        supported_color_modes: t.supported_color_modes,
        rgb_range: Some(RgbRange::Auto),
        min_refresh_rate: t.min_refresh_rate,
        physical_size_mm: t.physical_size_mm,
        extra: t.extra,
    }
}

/// The first mode is the preferred one.
pub open spec fn preferred_first(modes: Seq<ModeView>) -> Seq<ModeView> {
    if modes.len() > 0 {
        modes.update(0, ModeView { is_preferred: true, ..modes[0] })
    } else {
        modes
    }
}

/// A generic fixture monitor; an empty display name means none.
pub open spec fn plain_template(
    connector: Seq<char>,
    vendor: Seq<char>,
    product: Seq<char>,
    serial: Seq<char>,
    display_name: Seq<char>,
    modes: Seq<ModeView>,
) -> MonitorTemplate {
    MonitorTemplate {
        connector,
        vendor,
        product,
        serial,
        display_name: if display_name.len() == 0 {
            None
        } else {
            Some(display_name)
        },
        modes: preferred_first(modes),
        supported_color_modes: seq![ColorMode::Default, ColorMode::SdrNative],
        min_refresh_rate: None,
        physical_size_mm: None,
        extra: Seq::empty(),
    }
}

/// A generic fixture monitor: default color mode, automatic RGB range,
/// the first mode preferred.
pub fn monitor(
    connector: &str,
    vendor: &str,
    product: &str,
    serial: &str,
    display_name: &str,
    modes: Vec<MonitorMode>,
) -> (r: PhysicalMonitor)
    ensures
        fits(r@, plain_template(connector@, vendor@, product@, serial@, display_name@, modes_view(modes@))),
{
    let mut modes = modes;
    let ghost mv = modes_view(modes@);
    if modes.len() > 0 {
        let mut first = modes[0].clone();
        first.is_preferred = true;
        modes.set(0, first);
        assert(modes_view(modes@) =~= preferred_first(mv));
    }
    let extra: Vec<(String, String)> = Vec::new();
    assert(extra_view(extra@) =~= Seq::empty());
    let supported_color_modes = vec![ColorMode::Default, ColorMode::SdrNative];
    assert(supported_color_modes@ =~= seq![ColorMode::Default, ColorMode::SdrNative]);
    PhysicalMonitor {
        identity: MonitorIdentity::new(connector, vendor, product, serial),
        display_name: if display_name.is_empty() {
            None
        } else {
            Some(display_name.to_owned())
        },
        modes,
        is_builtin: false,
        is_underscanning: false,
        supports_underscanning: false,
        is_for_lease: false,
        color_mode: Some(ColorMode::Default),
        supported_color_modes,
        rgb_range: Some(RgbRange::Auto),
        min_refresh_rate: None,
        physical_size_mm: None,
        extra,
    }
}

pub open spec fn scales_4k() -> Seq<i64> {
    seq![2_000_000, 1_000_000, 1_250_000, 1_500_000]
}

pub open spec fn scales_1440() -> Seq<i64> {
    seq![1_000_000, 1_250_000, 1_500_000]
}

pub open spec fn scales_1080() -> Seq<i64> {
    seq![1_000_000, 1_250_000]
}

pub open spec fn lg27_modes() -> Seq<ModeView> {
    seq![
        mode_spec("3840x2160@59.997"@, 3840, 2160, 59_996_624, scales_4k()),
        mode_spec("3840x2160@30.000"@, 3840, 2160, 30_000_000, scales_4k()),
        mode_spec("2560x1440@59.951"@, 2560, 1440, 59_950_550, scales_1440()),
        mode_spec("1920x1080@60.000"@, 1920, 1080, 60_000_000, scales_1080()),
        mode_spec("1920x1080@59.940"@, 1920, 1080, 59_940_000, scales_1080()),
    ]
}

/// An LG-27-4K-like panel.
pub open spec fn lg27_template(connector: Seq<char>, serial: Seq<char>) -> MonitorTemplate {
    MonitorTemplate {
        supported_color_modes: seq![ColorMode::Default, ColorMode::SdrNative, ColorMode::Bt2100],
        physical_size_mm: Some((600, 340)),
        ..plain_template(connector, "GSM"@, "LG HDR 4K"@, serial, "LG Electronics 27\""@, lg27_modes())
    }
}

/// An LG-27-4K-like panel.
pub fn lg27(connector: &str, serial: &str) -> (r: PhysicalMonitor)
    ensures
        fits(r@, lg27_template(connector@, serial@)),
{
    let s4k: [i64; 4] = [2_000_000, 1_000_000, 1_250_000, 1_500_000];
    let s1440: [i64; 3] = [1_000_000, 1_250_000, 1_500_000];
    let s1080: [i64; 2] = [1_000_000, 1_250_000];
    assert(s4k@ =~= scales_4k());
    assert(s1440@ =~= scales_1440());
    assert(s1080@ =~= scales_1080());
    let modes = vec![
        mode("3840x2160@59.997", 3840, 2160, 59_996_624, &s4k),
        mode("3840x2160@30.000", 3840, 2160, 30_000_000, &s4k),
        mode("2560x1440@59.951", 2560, 1440, 59_950_550, &s1440),
        mode("1920x1080@60.000", 1920, 1080, 60_000_000, &s1080),
        mode("1920x1080@59.940", 1920, 1080, 59_940_000, &s1080),
    ];
    assert(modes_view(modes@) =~= lg27_modes());
    let mut m = monitor(connector, "GSM", "LG HDR 4K", serial, "LG Electronics 27\"", modes);
    m.supported_color_modes = vec![ColorMode::Default, ColorMode::SdrNative, ColorMode::Bt2100];
    assert(m.supported_color_modes@ =~= seq![ColorMode::Default, ColorMode::SdrNative, ColorMode::Bt2100]);
    m.physical_size_mm = Some((600, 340));
    m
}

pub open spec fn kvm_modes() -> Seq<ModeView> {
    seq![
        mode_spec("3840x2160@30.000"@, 3840, 2160, 30_000_000, scales_4k()),
        mode_spec("2560x1440@59.951"@, 2560, 1440, 59_950_550, scales_1440()),
        mode_spec("1920x1080@60.000"@, 1920, 1080, 60_000_000, scales_1080()),
        mode_spec("1920x1080@50.000"@, 1920, 1080, 50_000_000, scales_1080()),
    ]
}

/// A Lontium-based KVM capture device (4K only at 30 Hz).
pub open spec fn kvm_template(connector: Seq<char>) -> MonitorTemplate {
    MonitorTemplate {
        min_refresh_rate: Some(24),
        ..plain_template(connector, "LTM"@, "Lontium semi"@, "0x88888800"@, "LTM 5\""@, kvm_modes())
    }
}

/// A Lontium-based KVM capture device (4K only at 30 Hz).
pub fn kvm(connector: &str) -> (r: PhysicalMonitor)
    ensures
        fits(r@, kvm_template(connector@)),
{
    let s4k: [i64; 4] = [2_000_000, 1_000_000, 1_250_000, 1_500_000];
    let s1440: [i64; 3] = [1_000_000, 1_250_000, 1_500_000];
    let s1080: [i64; 2] = [1_000_000, 1_250_000];
    assert(s4k@ =~= scales_4k());
    assert(s1440@ =~= scales_1440());
    assert(s1080@ =~= scales_1080());
    let modes = vec![
        mode("3840x2160@30.000", 3840, 2160, 30_000_000, &s4k),
        mode("2560x1440@59.951", 2560, 1440, 59_950_550, &s1440),
        mode("1920x1080@60.000", 1920, 1080, 60_000_000, &s1080),
        mode("1920x1080@50.000", 1920, 1080, 50_000_000, &s1080),
    ];
    assert(modes_view(modes@) =~= kvm_modes());
    let mut m = monitor(connector, "LTM", "Lontium semi", "0x88888800", "LTM 5\"", modes);
    m.min_refresh_rate = Some(24);
    m
}

/// An assignment with no output settings.
pub fn assignment(connector: &str, mode_id: &str) -> (r: MonitorAssignment)
    ensures
        r@ == (AssignmentView {
            connector: connector@,
            mode_id: mode_id@,
            color_mode: None,
            rgb_range: None,
            underscanning: None,
        }),
{
    MonitorAssignment {
        connector: connector.to_owned(),
        mode_id: mode_id.to_owned(),
        color_mode: None,
        rgb_range: None,
        underscanning: None,
    }
}

/// An untransformed logical display.
pub fn logical(x: i32, y: i32, scale: i64, primary: bool, monitors: Vec<MonitorAssignment>) -> (r: LogicalDisplay)
    ensures
        r@ == (DisplayView {
            x,
            y,
            scale,
            transform: Transform::Normal,
            primary,
            monitors: assignments_view(monitors@),
        }),
{
    LogicalDisplay { x, y, scale, transform: Transform::Normal, primary, monitors }
}

/// Some assignment places `connector` in mode `id`.
pub open spec fn assigned(asg: Seq<AssignmentView>, connector: Seq<char>, id: Seq<char>) -> bool {
    exists|k: int| 0 <= k < asg.len() && #[trigger] asg[k].connector == connector && asg[k].mode_id == id
}

/// The modes of the monitor on `connector` with their current flags set
/// from the assignments.
pub open spec fn marked(modes: Seq<ModeView>, connector: Seq<char>, asg: Seq<AssignmentView>) -> Seq<ModeView> {
    modes.map_values(|m: ModeView| ModeView { is_current: assigned(asg, connector, m.id), ..m })
}

/// All assignments of a layout, in display order.
fn all_assignments(layout: &DisplayLayout) -> (r: Vec<MonitorAssignment>)
    ensures
        assignments_view(r@) == assignments_of(layout@.displays),
{
    let ghost d = layout@.displays;
    let mut out: Vec<MonitorAssignment> = Vec::new();
    let mut i: usize = 0;
    assert(d.take(0) =~= Seq::<DisplayView>::empty());
    assert(assignments_view(out@) =~= assignments_of(d.take(0)));
    while i < layout.logical_displays.len()
        invariant
            d == layout@.displays,
            i <= d.len(),
            assignments_view(out@) == assignments_of(d.take(i as int)),
        decreases d.len() - i,
    {
        let g = &layout.logical_displays[i];
        assert(d[i as int] == g@);
        assert(d.take(i as int + 1).drop_last() =~= d.take(i as int));
        let ghost before = assignments_view(out@);
        let mut k: usize = 0;
        while k < g.monitors.len()
            invariant
                k <= g.monitors@.len(),
                assignments_view(out@) == before + assignments_view(g.monitors@).take(k as int),
            decreases g.monitors@.len() - k,
        {
            let a = g.monitors[k].clone();
            let ghost prev = out@;
            out.push(a);
            assert(assignments_view(out@) =~= assignments_view(prev).push(a@));
            assert(assignments_view(g.monitors@).take(k as int + 1) =~= assignments_view(g.monitors@).take(
                k as int,
            ).push(a@));
            k += 1;
            assert(assignments_view(out@) =~= before + assignments_view(g.monitors@).take(k as int));
        }
        assert(assignments_view(g.monitors@).take(k as int) =~= g@.monitors);
        i += 1;
    }
    assert(d.take(d.len() as int) =~= d);
    out
}

/// Sets the current flags of a monitor's modes from the assignments.
fn mark_modes(m: &mut PhysicalMonitor, asg: &Vec<MonitorAssignment>)
    ensures
        final(m)@ == (MonitorView {
            modes: marked(old(m)@.modes, old(m)@.identity.connector@, assignments_view(asg@)),
            ..old(m)@
        }),
{
    let ghost av = assignments_view(asg@);
    let ghost mv = old(m)@.modes;
    let ghost c = old(m)@.identity.connector@;
    let mut j: usize = 0;
    while j < m.modes.len()
        invariant
            av == assignments_view(asg@),
            c == m.identity.connector@,
            m@ == (MonitorView { modes: m@.modes, ..old(m)@ }),
            m@.modes.len() == mv.len(),
            j <= mv.len(),
            forall|q: int| 0 <= q < j ==> #[trigger] m@.modes[q] == marked(mv, c, av)[q],
            forall|q: int| j <= q < mv.len() ==> #[trigger] m@.modes[q] == mv[q],
        decreases mv.len() - j,
    {
        let mut md = m.modes[j].clone();
        assert(m@.modes[j as int] == m.modes@[j as int]@);
        let mut any = false;
        let mut k: usize = 0;
        while k < asg.len()
            invariant
                av == assignments_view(asg@),
                k <= av.len(),
                j < mv.len(),
                md@.id == mv[j as int].id,
                c == m.identity.connector@,
                any == exists|q: int| 0 <= q < k && #[trigger] av[q].connector == c && av[q].mode_id == md@.id,
            decreases av.len() - k,
        {
            let a = &asg[k];
            assert(av[k as int] == a@);
            if str_eq(a.connector.as_str(), m.identity.connector.as_str()) && str_eq(
                a.mode_id.as_str(),
                md.id.as_str(),
            ) {
                assert(av[k as int].connector == c && av[k as int].mode_id == md@.id);
                any = true;
            }
            k += 1;
        }
        md.is_current = any;
        assert(md@ == marked(mv, c, av)[j as int]);
        let ghost before = m@;
        m.modes.set(j, md);
        assert(modes_view(m.modes@) =~= before.modes.update(j as int, marked(mv, c, av)[j as int]));
        j += 1;
    }
    assert(m@.modes =~= marked(mv, c, av));
}

/// A fixture state: the given monitors and layout, each assigned mode
/// marked current.
pub fn state(serial: u32, monitors: Vec<PhysicalMonitor>, layout: DisplayLayout) -> (r: DisplayState)
    ensures
        r.serial == serial,
        r.layout@ == layout@,
        r.monitors@.len() == monitors@.len(),
        forall|i: int|
            0 <= i < monitors@.len() ==> #[trigger] r.monitors@[i]@ == (MonitorView {
                modes: marked(monitors@[i]@.modes, monitors@[i]@.identity.connector@, assignments_of(layout@.displays)),
                ..monitors@[i]@
            }),
        r.supports_changing_layout_mode,
        !r.global_scale_required,
        r.supports_mirroring is None,
        r.extra@.len() == 0,
{
    let asg = all_assignments(&layout);
    let mut monitors = monitors;
    let ghost before = monitors@;
    let mut i: usize = 0;
    while i < monitors.len()
        invariant
            assignments_view(asg@) == assignments_of(layout@.displays),
            monitors@.len() == before.len(),
            i <= before.len(),
            forall|q: int|
                0 <= q < i ==> #[trigger] monitors@[q]@ == (MonitorView {
                    modes: marked(before[q]@.modes, before[q]@.identity.connector@, assignments_of(layout@.displays)),
                    ..before[q]@
                }),
            forall|q: int| i <= q < before.len() ==> #[trigger] monitors@[q] == before[q],
        decreases before.len() - i,
    {
        let mut m = monitors[i].clone();
        mark_modes(&mut m, &asg);
        monitors.set(i, m);
        i += 1;
    }
    DisplayState {
        serial,
        monitors,
        layout,
        supports_changing_layout_mode: true,
        global_scale_required: false,
        supports_mirroring: None,
        extra: Vec::new(),
    }
}

/// A template with the current flags that the assignments give.
pub open spec fn current_template(t: MonitorTemplate, asg: Seq<AssignmentView>) -> MonitorTemplate {
    MonitorTemplate { modes: marked(t.modes, t.connector, asg), ..t }
}

/// Marking the current modes of a monitor marks its template.
proof fn lemma_fits_marked(m: MonitorView, t: MonitorTemplate, asg: Seq<AssignmentView>)
    requires
        fits(m, t),
    ensures
        fits(
            MonitorView { modes: marked(m.modes, m.identity.connector@, asg), ..m },
            current_template(t, asg),
        ),
{
}

/// A state is the fixture made of these monitors, layout and state-level
/// unknown properties, with serial 1.
pub open spec fn is_fixture_state(
    r: DisplayState,
    templates: Seq<MonitorTemplate>,
    layout: LayoutView,
    extra: Seq<(Seq<char>, Seq<char>)>,
) -> bool {
    &&& r.serial == 1
    &&& r.layout@ == layout
    &&& r.monitors@.len() == templates.len()
    &&& forall|i: int|
        0 <= i < templates.len() ==> fits(
            #[trigger] r.monitors@[i]@,
            current_template(templates[i], assignments_of(layout.displays)),
        )
    &&& r.supports_changing_layout_mode
    &&& !r.global_scale_required
    &&& r.supports_mirroring is None
    &&& extra_view(r.extra@) == extra
}

pub open spec fn member(connector: Seq<char>, mode_id: Seq<char>) -> AssignmentView {
    AssignmentView { connector, mode_id, color_mode: None, rgb_range: None, underscanning: None }
}

pub open spec fn group(x: i32, y: i32, scale: i64, primary: bool, monitors: Seq<AssignmentView>) -> DisplayView {
    DisplayView { x, y, scale, transform: Transform::Normal, primary, monitors }
}

pub open spec fn logical_layout(displays: Seq<DisplayView>) -> LayoutView {
    LayoutView { layout_mode: LayoutMode::Logical, displays }
}

pub open spec fn uhd60() -> Seq<char> {
    "3840x2160@59.997"@
}

pub open spec fn uhd30() -> Seq<char> {
    "3840x2160@30.000"@
}

/// The fixture names, in the order tests walk them.
pub open spec fn fixture_name_seq() -> Seq<Seq<char>> {
    seq![
        "single"@,
        "dual-extended"@,
        "dual-mirrored"@,
        "mirror-plus-extended"@,
        "triple-extended"@,
        "kvm-no-serial"@,
        "identical-twins"@,
        "mixed-1080p-4k"@,
        "mixed-refresh-rates"@,
        "fractional-scaling"@,
        "rotated"@,
        "unknown-properties"@,
        "no-common-mirror-mode"@,
    ]
}

/// The fixture names.
pub fn fixture_names() -> (r: Vec<&'static str>)
    ensures
        r@.map_values(|s: &str| s@) == fixture_name_seq(),
{
    let v = vec![
        "single",
        "dual-extended",
        "dual-mirrored",
        "mirror-plus-extended",
        "triple-extended",
        "kvm-no-serial",
        "identical-twins",
        "mixed-1080p-4k",
        "mixed-refresh-rates",
        "fractional-scaling",
        "rotated",
        "unknown-properties",
        "no-common-mirror-mode",
    ];
    assert(v@.map_values(|s: &str| s@) =~= fixture_name_seq());
    v
}

pub open spec fn two_lg27() -> Seq<MonitorTemplate> {
    seq![lg27_template("DP-1"@, "0x0001"@), lg27_template("DP-2"@, "0x0002"@)]
}

pub open spec fn audited_monitors() -> Seq<MonitorTemplate> {
    seq![lg27_template("DP-7"@, "0x0004ee0e"@), lg27_template("DP-8"@, "0x0003e924"@), kvm_template("HDMI-1"@)]
}

pub open spec fn dual_extended_layout() -> LayoutView {
    logical_layout(
        seq![
            group(0, 0, 2_000_000, true, seq![member("DP-1"@, uhd60())]),
            group(1920, 0, 2_000_000, false, seq![member("DP-2"@, uhd60())]),
        ],
    )
}

pub open spec fn mixed_rates_monitors() -> Seq<MonitorTemplate> {
    seq![
        plain_template(
            "DP-1"@,
            "AAA"@,
            "Sixty"@,
            "1"@,
            ""@,
            seq![
                mode_spec("1920x1080@60.000"@, 1920, 1080, 60_000_000, seq![1_000_000]),
                mode_spec("1920x1080@59.940"@, 1920, 1080, 59_940_000, seq![1_000_000]),
                mode_spec("1920x1080@59.950"@, 1920, 1080, 59_950_000, seq![1_000_000]),
            ],
        ),
        plain_template(
            "DP-2"@,
            "BBB"@,
            "Fifty"@,
            "2"@,
            ""@,
            seq![
                mode_spec("1920x1080@50.000"@, 1920, 1080, 50_000_000, seq![1_000_000]),
                mode_spec("1920x1080@59.940"@, 1920, 1080, 59_940_000, seq![1_000_000]),
            ],
        ),
    ]
}

pub open spec fn asus_template() -> MonitorTemplate {
    plain_template(
        "HDMI-1"@,
        "AUS"@,
        "ROG PG248Q"@,
        "L8LMQS075392"@,
        "ASUS 24\""@,
        seq![
            mode_spec("1920x1080@144.001"@, 1920, 1080, 144_001_000, scales_1080()),
            mode_spec("1920x1080@60.000"@, 1920, 1080, 60_000_000, scales_1080()),
        ],
    )
}

pub open spec fn no_common_monitors() -> Seq<MonitorTemplate> {
    seq![
        plain_template(
            "DP-1"@,
            "AAA"@,
            "WQHD Only"@,
            "1"@,
            ""@,
            seq![mode_spec("2560x1440@60.000"@, 2560, 1440, 60_000_000, seq![1_000_000])],
        ),
        plain_template(
            "DP-2"@,
            "BBB"@,
            "WUXGA Only"@,
            "2"@,
            ""@,
            seq![mode_spec("1920x1200@60.000"@, 1920, 1200, 60_000_000, seq![1_000_000])],
        ),
    ]
}

/// The monitors of the first dual-extended panel with unknown properties
/// on it and on its first mode.
pub open spec fn with_unknown_properties(t: MonitorTemplate) -> MonitorTemplate {
    MonitorTemplate {
        extra: seq![("quantum-flux"@, "0.7"@)],
        modes: t.modes.update(0, ModeView { extra: seq![("is-hyperspace"@, "false"@)], ..t.modes[0] }),
        ..t
    }
}

/// The monitors of a named fixture.
pub open spec fn fixture_monitors(name: Seq<char>) -> Seq<MonitorTemplate> {
    if name == "single"@ {
        seq![lg27_template("DP-1"@, "0x0001"@)]
    } else if name == "dual-extended"@ || name == "dual-mirrored"@ || name == "fractional-scaling"@
        || name == "rotated"@ {
        two_lg27()
    } else if name == "mirror-plus-extended"@ || name == "triple-extended"@ {
        audited_monitors()
    } else if name == "kvm-no-serial"@ {
        seq![lg27_template("DP-1"@, "0x0001"@), MonitorTemplate { serial: ""@, ..kvm_template("HDMI-1"@) }]
    } else if name == "identical-twins"@ {
        seq![
            MonitorTemplate { product: "Twin"@, ..lg27_template("DP-1"@, "0xsame"@) },
            MonitorTemplate { product: "Twin"@, ..lg27_template("DP-2"@, "0xsame"@) },
        ]
    } else if name == "mixed-1080p-4k"@ {
        seq![lg27_template("DP-1"@, "0x0001"@), asus_template()]
    } else if name == "mixed-refresh-rates"@ {
        mixed_rates_monitors()
    } else if name == "unknown-properties"@ {
        two_lg27().update(0, with_unknown_properties(two_lg27()[0]))
    } else {
        no_common_monitors()
    }
}

/// The layout of a named fixture.
pub open spec fn fixture_layout(name: Seq<char>) -> LayoutView {
    if name == "single"@ {
        logical_layout(seq![group(0, 0, 2_000_000, true, seq![member("DP-1"@, uhd60())])])
    } else if name == "dual-extended"@ || name == "identical-twins"@ || name == "unknown-properties"@ {
        dual_extended_layout()
    } else if name == "dual-mirrored"@ {
        logical_layout(
            seq![group(0, 0, 2_000_000, true, seq![member("DP-1"@, uhd60()), member("DP-2"@, uhd60())])],
        )
    } else if name == "mirror-plus-extended"@ {
        logical_layout(
            seq![
                group(0, 0, 2_000_000, true, seq![member("DP-7"@, uhd60()), member("HDMI-1"@, uhd30())]),
                group(1920, 0, 2_000_000, false, seq![member("DP-8"@, uhd60())]),
            ],
        )
    } else if name == "triple-extended"@ {
        logical_layout(
            seq![
                group(0, 0, 2_000_000, false, seq![member("DP-8"@, uhd60())]),
                group(1920, 0, 2_000_000, true, seq![member("DP-7"@, uhd60())]),
                group(3840, 0, 2_000_000, false, seq![member("HDMI-1"@, uhd30())]),
            ],
        )
    } else if name == "kvm-no-serial"@ {
        logical_layout(
            seq![
                group(0, 0, 2_000_000, true, seq![member("DP-1"@, uhd60())]),
                group(1920, 0, 1_000_000, false, seq![member("HDMI-1"@, "1920x1080@60.000"@)]),
            ],
        )
    } else if name == "mixed-1080p-4k"@ {
        logical_layout(
            seq![
                group(0, 0, 2_000_000, true, seq![member("DP-1"@, uhd60())]),
                group(1920, 0, 1_000_000, false, seq![member("HDMI-1"@, "1920x1080@144.001"@)]),
            ],
        )
    } else if name == "mixed-refresh-rates"@ {
        logical_layout(
            seq![
                group(0, 0, 1_000_000, true, seq![member("DP-1"@, "1920x1080@60.000"@)]),
                group(1920, 0, 1_000_000, false, seq![member("DP-2"@, "1920x1080@50.000"@)]),
            ],
        )
    } else if name == "fractional-scaling"@ {
        logical_layout(
            seq![
                group(0, 0, 1_500_000, true, seq![member("DP-1"@, uhd60())]),
                group(2560, 0, 1_250_000, false, seq![member("DP-2"@, uhd60())]),
            ],
        )
    } else if name == "rotated"@ {
        logical_layout(
            seq![
                group(0, 0, 2_000_000, true, seq![member("DP-1"@, uhd60())]),
                DisplayView {
                    transform: Transform::Rotate90,
                    ..group(1920, 0, 2_000_000, false, seq![member("DP-2"@, uhd60())])
                },
            ],
        )
    } else {
        logical_layout(
            seq![
                group(0, 0, 1_000_000, true, seq![member("DP-1"@, "2560x1440@60.000"@)]),
                group(2560, 0, 1_000_000, false, seq![member("DP-2"@, "1920x1200@60.000"@)]),
            ],
        )
    }
}

/// The state-level unknown properties of a named fixture.
pub open spec fn fixture_extra(name: Seq<char>) -> Seq<(Seq<char>, Seq<char>)> {
    if name == "unknown-properties"@ {
        seq![("hypothetical-51-property"@, "true"@)]
    } else {
        Seq::empty()
    }
}

fn one(x: i32, y: i32, scale: i64, primary: bool, connector: &str, mode_id: &str) -> (r: LogicalDisplay)
    ensures
        r@ == group(x, y, scale, primary, seq![member(connector@, mode_id@)]),
{
    let members = vec![assignment(connector, mode_id)];
    assert(assignments_view(members@) =~= seq![member(connector@, mode_id@)]);
    logical(x, y, scale, primary, members)
}

fn logical_of(displays: Vec<LogicalDisplay>) -> (r: DisplayLayout)
    ensures
        r@ == logical_layout(displays_view(displays@)),
{
    DisplayLayout { layout_mode: LayoutMode::Logical, logical_displays: displays }
}

/// Assembles a fixture state from monitors that fit their templates.
fn build(monitors: Vec<PhysicalMonitor>, layout: DisplayLayout, Ghost(templates): Ghost<Seq<MonitorTemplate>>) -> (r: DisplayState)
    requires
        monitors@.len() == templates.len(),
        forall|i: int| 0 <= i < templates.len() ==> fits(#[trigger] monitors@[i]@, templates[i]),
    ensures
        is_fixture_state(r, templates, layout@, Seq::empty()),
{
    let ghost ms = monitors@;
    let ghost l = layout@;
    let r = state(1, monitors, layout);
    assert forall|i: int| 0 <= i < templates.len() implies fits(
        #[trigger] r.monitors@[i]@,
        current_template(templates[i], assignments_of(l.displays)),
    ) by {
        lemma_fits_marked(ms[i]@, templates[i], assignments_of(l.displays));
    }
    assert(extra_view(r.extra@) =~= Seq::empty());
    r
}

fn fixture_single() -> (r: DisplayState)
    ensures
        is_fixture_state(
            r,
            seq![lg27_template("DP-1"@, "0x0001"@)],
            logical_layout(seq![group(0, 0, 2_000_000, true, seq![member("DP-1"@, uhd60())])]),
            Seq::empty(),
        ),
{
    let monitors = vec![lg27("DP-1", "0x0001")];
    let displays = vec![one(0, 0, 2_000_000, true, "DP-1", "3840x2160@59.997")];
    let layout = logical_of(displays);
    assert(layout@.displays =~= seq![group(0, 0, 2_000_000, true, seq![member("DP-1"@, uhd60())])]);
    let ghost ts = seq![lg27_template("DP-1"@, "0x0001"@)];
    build(monitors, layout, Ghost(ts))
}

fn two_panels() -> (r: Vec<PhysicalMonitor>)
    ensures
        r@.len() == 2,
        forall|i: int| 0 <= i < 2 ==> fits(#[trigger] r@[i]@, two_lg27()[i]),
{
    vec![lg27("DP-1", "0x0001"), lg27("DP-2", "0x0002")]
}

fn audited() -> (r: Vec<PhysicalMonitor>)
    ensures
        r@.len() == 3,
        forall|i: int| 0 <= i < 3 ==> fits(#[trigger] r@[i]@, audited_monitors()[i]),
{
    vec![lg27("DP-7", "0x0004ee0e"), lg27("DP-8", "0x0003e924"), kvm("HDMI-1")]
}

fn fixture_dual_extended() -> (r: DisplayState)
    ensures
        is_fixture_state(r, two_lg27(), dual_extended_layout(), Seq::empty()),
{
    let displays = vec![
        one(0, 0, 2_000_000, true, "DP-1", "3840x2160@59.997"),
        one(1920, 0, 2_000_000, false, "DP-2", "3840x2160@59.997"),
    ];
    let layout = logical_of(displays);
    assert(layout@.displays =~= dual_extended_layout().displays);
    build(two_panels(), layout, Ghost(two_lg27()))
}

fn fixture_dual_mirrored() -> (r: DisplayState)
    ensures
        is_fixture_state(
            r,
            two_lg27(),
            logical_layout(
                seq![group(0, 0, 2_000_000, true, seq![member("DP-1"@, uhd60()), member("DP-2"@, uhd60())])],
            ),
            Seq::empty(),
        ),
{
    let members = vec![assignment("DP-1", "3840x2160@59.997"), assignment("DP-2", "3840x2160@59.997")];
    assert(assignments_view(members@) =~= seq![member("DP-1"@, uhd60()), member("DP-2"@, uhd60())]);
    let displays = vec![logical(0, 0, 2_000_000, true, members)];
    let layout = logical_of(displays);
    assert(layout@.displays =~= seq![group(0, 0, 2_000_000, true, seq![member("DP-1"@, uhd60()), member("DP-2"@, uhd60())])]);
    build(two_panels(), layout, Ghost(two_lg27()))
}

fn fixture_mirror_plus_extended() -> (r: DisplayState)
    ensures
        is_fixture_state(
            r,
            audited_monitors(),
            logical_layout(
                seq![
                    group(0, 0, 2_000_000, true, seq![member("DP-7"@, uhd60()), member("HDMI-1"@, uhd30())]),
                    group(1920, 0, 2_000_000, false, seq![member("DP-8"@, uhd60())]),
                ],
            ),
            Seq::empty(),
        ),
{
    let members = vec![assignment("DP-7", "3840x2160@59.997"), assignment("HDMI-1", "3840x2160@30.000")];
    assert(assignments_view(members@) =~= seq![member("DP-7"@, uhd60()), member("HDMI-1"@, uhd30())]);
    let displays = vec![
        logical(0, 0, 2_000_000, true, members),
        one(1920, 0, 2_000_000, false, "DP-8", "3840x2160@59.997"),
    ];
    let layout = logical_of(displays);
    assert(layout@.displays =~= seq![
            group(0, 0, 2_000_000, true, seq![member("DP-7"@, uhd60()), member("HDMI-1"@, uhd30())]),
            group(1920, 0, 2_000_000, false, seq![member("DP-8"@, uhd60())]),
        ]);
    build(audited(), layout, Ghost(audited_monitors()))
}

fn fixture_triple_extended() -> (r: DisplayState)
    ensures
        is_fixture_state(
            r,
            audited_monitors(),
            logical_layout(
                seq![
                    group(0, 0, 2_000_000, false, seq![member("DP-8"@, uhd60())]),
                    group(1920, 0, 2_000_000, true, seq![member("DP-7"@, uhd60())]),
                    group(3840, 0, 2_000_000, false, seq![member("HDMI-1"@, uhd30())]),
                ],
            ),
            Seq::empty(),
        ),
{
    let displays = vec![
        one(0, 0, 2_000_000, false, "DP-8", "3840x2160@59.997"),
        one(1920, 0, 2_000_000, true, "DP-7", "3840x2160@59.997"),
        one(3840, 0, 2_000_000, false, "HDMI-1", "3840x2160@30.000"),
    ];
    let layout = logical_of(displays);
    assert(layout@.displays =~= seq![
            group(0, 0, 2_000_000, false, seq![member("DP-8"@, uhd60())]),
            group(1920, 0, 2_000_000, true, seq![member("DP-7"@, uhd60())]),
            group(3840, 0, 2_000_000, false, seq![member("HDMI-1"@, uhd30())]),
        ]);
    build(audited(), layout, Ghost(audited_monitors()))
}

fn fixture_kvm_no_serial() -> (r: DisplayState)
    ensures
        is_fixture_state(
            r,
            seq![lg27_template("DP-1"@, "0x0001"@), MonitorTemplate { serial: ""@, ..kvm_template("HDMI-1"@) }],
            logical_layout(
                seq![
                    group(0, 0, 2_000_000, true, seq![member("DP-1"@, uhd60())]),
                    group(1920, 0, 1_000_000, false, seq![member("HDMI-1"@, "1920x1080@60.000"@)]),
                ],
            ),
            Seq::empty(),
        ),
{
    let mut k = kvm("HDMI-1");
    k.identity.serial = String::new();
    proof {
        reveal_strlit("");
        assert(k@.identity.serial@ =~= ""@);
    }
    let monitors = vec![lg27("DP-1", "0x0001"), k];
    let displays = vec![
        one(0, 0, 2_000_000, true, "DP-1", "3840x2160@59.997"),
        one(1920, 0, 1_000_000, false, "HDMI-1", "1920x1080@60.000"),
    ];
    let layout = logical_of(displays);
    assert(layout@.displays =~= seq![
            group(0, 0, 2_000_000, true, seq![member("DP-1"@, uhd60())]),
            group(1920, 0, 1_000_000, false, seq![member("HDMI-1"@, "1920x1080@60.000"@)]),
        ]);
    let ghost ts = seq![lg27_template("DP-1"@, "0x0001"@), MonitorTemplate { serial: ""@, ..kvm_template("HDMI-1"@) }];
    build(monitors, layout, Ghost(ts))
}

fn fixture_identical_twins() -> (r: DisplayState)
    ensures
        is_fixture_state(
            r,
            seq![
                MonitorTemplate { product: "Twin"@, ..lg27_template("DP-1"@, "0xsame"@) },
                MonitorTemplate { product: "Twin"@, ..lg27_template("DP-2"@, "0xsame"@) },
            ],
            dual_extended_layout(),
            Seq::empty(),
        ),
{
    let mut a = lg27("DP-1", "0xsame");
    let mut b = lg27("DP-2", "0xsame");
    a.identity.product = "Twin".to_owned();
    b.identity.product = "Twin".to_owned();
    let displays = vec![
        one(0, 0, 2_000_000, true, "DP-1", "3840x2160@59.997"),
        one(1920, 0, 2_000_000, false, "DP-2", "3840x2160@59.997"),
    ];
    let layout = logical_of(displays);
    assert(layout@.displays =~= dual_extended_layout().displays);
    let ghost ts = seq![
        MonitorTemplate { product: "Twin"@, ..lg27_template("DP-1"@, "0xsame"@) },
        MonitorTemplate { product: "Twin"@, ..lg27_template("DP-2"@, "0xsame"@) },
    ];
    build(vec![a, b], layout, Ghost(ts))
}

fn fixture_mixed_1080p_4k() -> (r: DisplayState)
    ensures
        is_fixture_state(
            r,
            seq![lg27_template("DP-1"@, "0x0001"@), asus_template()],
            logical_layout(
                seq![
                    group(0, 0, 2_000_000, true, seq![member("DP-1"@, uhd60())]),
                    group(1920, 0, 1_000_000, false, seq![member("HDMI-1"@, "1920x1080@144.001"@)]),
                ],
            ),
            Seq::empty(),
        ),
{
    let s1080: [i64; 2] = [1_000_000, 1_250_000];
    assert(s1080@ =~= scales_1080());
    let modes = vec![
        mode("1920x1080@144.001", 1920, 1080, 144_001_000, &s1080),
        mode("1920x1080@60.000", 1920, 1080, 60_000_000, &s1080),
    ];
    assert(modes_view(modes@) =~= seq![
        mode_spec("1920x1080@144.001"@, 1920, 1080, 144_001_000, scales_1080()),
        mode_spec("1920x1080@60.000"@, 1920, 1080, 60_000_000, scales_1080()),
    ]);
    let asus = monitor("HDMI-1", "AUS", "ROG PG248Q", "L8LMQS075392", "ASUS 24\"", modes);
    let monitors = vec![lg27("DP-1", "0x0001"), asus];
    let displays = vec![
        one(0, 0, 2_000_000, true, "DP-1", "3840x2160@59.997"),
        one(1920, 0, 1_000_000, false, "HDMI-1", "1920x1080@144.001"),
    ];
    let layout = logical_of(displays);
    assert(layout@.displays =~= seq![
            group(0, 0, 2_000_000, true, seq![member("DP-1"@, uhd60())]),
            group(1920, 0, 1_000_000, false, seq![member("HDMI-1"@, "1920x1080@144.001"@)]),
        ]);
    let ghost ts = seq![lg27_template("DP-1"@, "0x0001"@), asus_template()];
    build(monitors, layout, Ghost(ts))
}

fn fixture_mixed_refresh_rates() -> (r: DisplayState)
    ensures
        is_fixture_state(
            r,
            mixed_rates_monitors(),
            logical_layout(
                seq![
                    group(0, 0, 1_000_000, true, seq![member("DP-1"@, "1920x1080@60.000"@)]),
                    group(1920, 0, 1_000_000, false, seq![member("DP-2"@, "1920x1080@50.000"@)]),
                ],
            ),
            Seq::empty(),
        ),
{
    let s1: [i64; 1] = [1_000_000];
    assert(s1@ =~= seq![1_000_000i64]);
    let modes_a = vec![
        mode("1920x1080@60.000", 1920, 1080, 60_000_000, &s1),
        mode("1920x1080@59.940", 1920, 1080, 59_940_000, &s1),
        mode("1920x1080@59.950", 1920, 1080, 59_950_000, &s1),
    ];
    assert(modes_view(modes_a@) =~= seq![
        mode_spec("1920x1080@60.000"@, 1920, 1080, 60_000_000, seq![1_000_000]),
        mode_spec("1920x1080@59.940"@, 1920, 1080, 59_940_000, seq![1_000_000]),
        mode_spec("1920x1080@59.950"@, 1920, 1080, 59_950_000, seq![1_000_000]),
    ]);
    let modes_b = vec![
        mode("1920x1080@50.000", 1920, 1080, 50_000_000, &s1),
        mode("1920x1080@59.940", 1920, 1080, 59_940_000, &s1),
    ];
    assert(modes_view(modes_b@) =~= seq![
        mode_spec("1920x1080@50.000"@, 1920, 1080, 50_000_000, seq![1_000_000]),
        mode_spec("1920x1080@59.940"@, 1920, 1080, 59_940_000, seq![1_000_000]),
    ]);
    let monitors = vec![
        monitor("DP-1", "AAA", "Sixty", "1", "", modes_a),
        monitor("DP-2", "BBB", "Fifty", "2", "", modes_b),
    ];
    let displays = vec![
        one(0, 0, 1_000_000, true, "DP-1", "1920x1080@60.000"),
        one(1920, 0, 1_000_000, false, "DP-2", "1920x1080@50.000"),
    ];
    let layout = logical_of(displays);
    assert(layout@.displays =~= seq![
            group(0, 0, 1_000_000, true, seq![member("DP-1"@, "1920x1080@60.000"@)]),
            group(1920, 0, 1_000_000, false, seq![member("DP-2"@, "1920x1080@50.000"@)]),
        ]);
    build(monitors, layout, Ghost(mixed_rates_monitors()))
}

fn fixture_fractional_scaling() -> (r: DisplayState)
    ensures
        is_fixture_state(
            r,
            two_lg27(),
            logical_layout(
                seq![
                    group(0, 0, 1_500_000, true, seq![member("DP-1"@, uhd60())]),
                    group(2560, 0, 1_250_000, false, seq![member("DP-2"@, uhd60())]),
                ],
            ),
            Seq::empty(),
        ),
{
    let displays = vec![
        one(0, 0, 1_500_000, true, "DP-1", "3840x2160@59.997"),
        one(2560, 0, 1_250_000, false, "DP-2", "3840x2160@59.997"),
    ];
    let layout = logical_of(displays);
    assert(layout@.displays =~= seq![
            group(0, 0, 1_500_000, true, seq![member("DP-1"@, uhd60())]),
            group(2560, 0, 1_250_000, false, seq![member("DP-2"@, uhd60())]),
        ]);
    build(two_panels(), layout, Ghost(two_lg27()))
}

fn fixture_rotated() -> (r: DisplayState)
    ensures
        is_fixture_state(
            r,
            two_lg27(),
            logical_layout(
                seq![
                    group(0, 0, 2_000_000, true, seq![member("DP-1"@, uhd60())]),
                    DisplayView {
                        transform: Transform::Rotate90,
                        ..group(1920, 0, 2_000_000, false, seq![member("DP-2"@, uhd60())])
                    },
                ],
            ),
            Seq::empty(),
        ),
{
    let mut second = one(1920, 0, 2_000_000, false, "DP-2", "3840x2160@59.997");
    second.transform = Transform::Rotate90;
    let displays = vec![one(0, 0, 2_000_000, true, "DP-1", "3840x2160@59.997"), second];
    let layout = logical_of(displays);
    assert(layout@.displays =~= seq![
            group(0, 0, 2_000_000, true, seq![member("DP-1"@, uhd60())]),
            DisplayView {
                transform: Transform::Rotate90,
                ..group(1920, 0, 2_000_000, false, seq![member("DP-2"@, uhd60())])
            },
        ]);
    build(two_panels(), layout, Ghost(two_lg27()))
}

fn fixture_unknown_properties() -> (r: DisplayState)
    ensures
        is_fixture_state(
            r,
            two_lg27().update(0, with_unknown_properties(two_lg27()[0])),
            dual_extended_layout(),
            seq![("hypothetical-51-property"@, "true"@)],
        ),
{
    let mut s = fixture_dual_extended();
    let ghost asg = assignments_of(dual_extended_layout().displays);
    let ghost t0 = two_lg27()[0];
    s.extra.push(("hypothetical-51-property".to_owned(), "true".to_owned()));
    assert(extra_view(s.extra@) =~= seq![("hypothetical-51-property"@, "true"@)]);
    let mut m0 = s.monitors[0].clone();
    assert(fits(m0@, current_template(t0, asg)));
    assert(m0@.modes.len() == 5);
    m0.extra.push(("quantum-flux".to_owned(), "0.7".to_owned()));
    assert(extra_view(m0.extra@) =~= seq![("quantum-flux"@, "0.7"@)]);
    let mut md0 = m0.modes[0].clone();
    assert(md0@ == m0@.modes[0]);
    md0.extra.push(("is-hyperspace".to_owned(), "false".to_owned()));
    assert(extra_view(md0.extra@) =~= seq![("is-hyperspace"@, "false"@)]);
    let ghost before = m0@;
    m0.modes.set(0, md0);
    assert(modes_view(m0.modes@) =~= before.modes.update(0, md0@));
    assert(m0@.modes =~= marked(with_unknown_properties(t0).modes, t0.connector, asg));
    assert(fits(m0@, current_template(with_unknown_properties(t0), asg)));
    s.monitors.set(0, m0);
    assert(two_lg27().update(0, with_unknown_properties(t0))[1] == two_lg27()[1]);
    s
}

fn fixture_no_common_mirror_mode() -> (r: DisplayState)
    ensures
        is_fixture_state(
            r,
            no_common_monitors(),
            logical_layout(
                seq![
                    group(0, 0, 1_000_000, true, seq![member("DP-1"@, "2560x1440@60.000"@)]),
                    group(2560, 0, 1_000_000, false, seq![member("DP-2"@, "1920x1200@60.000"@)]),
                ],
            ),
            Seq::empty(),
        ),
{
    let s1: [i64; 1] = [1_000_000];
    assert(s1@ =~= seq![1_000_000i64]);
    let modes_a = vec![mode("2560x1440@60.000", 2560, 1440, 60_000_000, &s1)];
    assert(modes_view(modes_a@) =~= seq![mode_spec("2560x1440@60.000"@, 2560, 1440, 60_000_000, seq![1_000_000])]);
    let modes_b = vec![mode("1920x1200@60.000", 1920, 1200, 60_000_000, &s1)];
    assert(modes_view(modes_b@) =~= seq![mode_spec("1920x1200@60.000"@, 1920, 1200, 60_000_000, seq![1_000_000])]);
    let monitors = vec![
        monitor("DP-1", "AAA", "WQHD Only", "1", "", modes_a),
        monitor("DP-2", "BBB", "WUXGA Only", "2", "", modes_b),
    ];
    let displays = vec![
        one(0, 0, 1_000_000, true, "DP-1", "2560x1440@60.000"),
        one(2560, 0, 1_000_000, false, "DP-2", "1920x1200@60.000"),
    ];
    let layout = logical_of(displays);
    assert(layout@.displays =~= seq![
            group(0, 0, 1_000_000, true, seq![member("DP-1"@, "2560x1440@60.000"@)]),
            group(2560, 0, 1_000_000, false, seq![member("DP-2"@, "1920x1200@60.000"@)]),
        ]);
    build(monitors, layout, Ghost(no_common_monitors()))
}

/// A named fixture topology.
pub fn fixture(name: &str) -> (r: DisplayState)
    requires
        fixture_name_seq().contains(name@),
    ensures
        is_fixture_state(r, fixture_monitors(name@), fixture_layout(name@), fixture_extra(name@)),
{
    proof {
        reveal_strlit("single");
        reveal_strlit("dual-extended");
        reveal_strlit("dual-mirrored");
        reveal_strlit("mirror-plus-extended");
        reveal_strlit("triple-extended");
        reveal_strlit("kvm-no-serial");
        reveal_strlit("identical-twins");
        reveal_strlit("mixed-1080p-4k");
        reveal_strlit("mixed-refresh-rates");
        reveal_strlit("fractional-scaling");
        reveal_strlit("rotated");
        reveal_strlit("unknown-properties");
        reveal_strlit("no-common-mirror-mode");
        assert("single"@.len() == 6);
        assert("dual-extended"@.len() == 13);
        assert("dual-mirrored"@.len() == 13);
        assert("mirror-plus-extended"@.len() == 20);
        assert("triple-extended"@.len() == 15);
        assert("kvm-no-serial"@.len() == 13);
        assert("identical-twins"@.len() == 15);
        assert("mixed-1080p-4k"@.len() == 14);
        assert("mixed-refresh-rates"@.len() == 19);
        assert("fractional-scaling"@.len() == 18);
        assert("rotated"@.len() == 7);
        assert("unknown-properties"@.len() == 18);
        assert("no-common-mirror-mode"@.len() == 21);
        assert("dual-extended"@[0] == 'd' && "dual-extended"@[5] == 'e');
        assert("dual-mirrored"@[0] == 'd' && "dual-mirrored"@[5] == 'm');
        assert("kvm-no-serial"@[0] == 'k' && "kvm-no-serial"@[5] == 'o');
        assert("triple-extended"@[0] == 't' && "triple-extended"@[5] == 'e');
        assert("identical-twins"@[0] == 'i' && "identical-twins"@[5] == 'i');
        assert("fractional-scaling"@[0] == 'f' && "fractional-scaling"@[5] == 'i');
        assert("unknown-properties"@[0] == 'u' && "unknown-properties"@[5] == 'w');
    }
    if str_eq(name, "single") {
        fixture_single()
    } else if str_eq(name, "dual-extended") {
        fixture_dual_extended()
    } else if str_eq(name, "dual-mirrored") {
        fixture_dual_mirrored()
    } else if str_eq(name, "mirror-plus-extended") {
        fixture_mirror_plus_extended()
    } else if str_eq(name, "triple-extended") {
        fixture_triple_extended()
    } else if str_eq(name, "kvm-no-serial") {
        fixture_kvm_no_serial()
    } else if str_eq(name, "identical-twins") {
        fixture_identical_twins()
    } else if str_eq(name, "mixed-1080p-4k") {
        fixture_mixed_1080p_4k()
    } else if str_eq(name, "mixed-refresh-rates") {
        fixture_mixed_refresh_rates()
    } else if str_eq(name, "fractional-scaling") {
        fixture_fractional_scaling()
    } else if str_eq(name, "rotated") {
        fixture_rotated()
    } else if str_eq(name, "unknown-properties") {
        fixture_unknown_properties()
    } else if str_eq(name, "no-common-mirror-mode") {
        fixture_no_common_mirror_mode()
    } else {
        proof {
            let k = choose|k: int| 0 <= k < fixture_name_seq().len() && fixture_name_seq()[k] == name@;
            assert(false);
        }
        fixture_single()
    }
}

} // verus!
