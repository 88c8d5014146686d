//! Client-side validation of proposed layouts.
//!
//! These rules mirror what Mutter 50 enforces server-side, so problems can
//! be explained before the compositor is involved. The compositor's verify
//! mode remains the final authority.
use vstd::prelude::*;
use crate::connect::{all_connected, all_reachable};
use crate::geometry::{bounding_origin, fits_i32, lemma_extremes, min_x, min_y, Rect};
use crate::identity::str_eq;
use crate::layout::{
    assigned_mode, displays_view, enabled_of, find_mode, find_monitor, find_monitor_index,
    monitors_view, rect_of, resolve_assignment, AssignmentView, DisplayLayout, DisplayView,
    LayoutMode, LayoutView, LogicalDisplay,
};
use crate::mode::scale_listed;
use crate::monitor::{ColorMode, MonitorView, PhysicalMonitor};
use crate::state::DisplayState;
use crate::text::{int_text, nat_digits, push_char, push_int, push_nat, push_str};
use crate::units::{abs_int, approx, approx_eq, round_div, SCALE_EPS, SCALE_ONE};

verus! {

/// A problem found in a proposed layout. Scales are in millionths.
#[derive(Debug, PartialEq)]
pub enum LayoutProblem {
    NoActiveDisplays,
    MissingPrimary,
    MultiplePrimary,
    UnknownConnector { connector: String },
    MonitorInMultipleGroups { connector: String },
    UnknownMode { connector: String, mode_id: String },
    MirrorResolutionMismatch { group: usize, details: String },
    EmptyGroup,
    UnsupportedScale { connector: String, mode_id: String, scale: i64 },
    InvalidScale { scale: i64 },
    Overlap { a: usize, b: usize },
    NotAdjacent,
    NotNormalized { min_x: i32, min_y: i32 },
    GlobalScaleMismatch { details: String },
    FractionalScaleInPhysicalMode { scale: i64 },
    MirroringUnsupported,
    MonitorForLease { connector: String },
    UnsupportedColorMode { connector: String },
}

/// Mathematical model of a layout problem.
pub ghost enum ProblemView {
    NoActiveDisplays,
    MissingPrimary,
    MultiplePrimary,
    UnknownConnector { connector: Seq<char> },
    MonitorInMultipleGroups { connector: Seq<char> },
    UnknownMode { connector: Seq<char>, mode_id: Seq<char> },
    MirrorResolutionMismatch { group: usize, details: Seq<char> },
    EmptyGroup,
    UnsupportedScale { connector: Seq<char>, mode_id: Seq<char>, scale: i64 },
    InvalidScale { scale: i64 },
    Overlap { a: usize, b: usize },
    NotAdjacent,
    NotNormalized { min_x: i32, min_y: i32 },
    GlobalScaleMismatch { details: Seq<char> },
    FractionalScaleInPhysicalMode { scale: i64 },
    MirroringUnsupported,
    MonitorForLease { connector: Seq<char> },
    UnsupportedColorMode { connector: Seq<char> },
}

impl View for LayoutProblem {
    type V = ProblemView;

    open spec fn view(&self) -> ProblemView {
        match self {
            LayoutProblem::NoActiveDisplays => ProblemView::NoActiveDisplays,
            LayoutProblem::MissingPrimary => ProblemView::MissingPrimary,
            LayoutProblem::MultiplePrimary => ProblemView::MultiplePrimary,
            LayoutProblem::UnknownConnector { connector } => ProblemView::UnknownConnector {
                connector: connector@,
            },
            LayoutProblem::MonitorInMultipleGroups { connector } =>
                ProblemView::MonitorInMultipleGroups { connector: connector@ },
            LayoutProblem::UnknownMode { connector, mode_id } => ProblemView::UnknownMode {
                connector: connector@,
                mode_id: mode_id@,
            },
            LayoutProblem::MirrorResolutionMismatch { group, details } =>
                ProblemView::MirrorResolutionMismatch { group: *group, details: details@ },
            LayoutProblem::EmptyGroup => ProblemView::EmptyGroup,
            LayoutProblem::UnsupportedScale { connector, mode_id, scale } =>
                ProblemView::UnsupportedScale {
                connector: connector@,
                mode_id: mode_id@,
                scale: *scale,
            },
            LayoutProblem::InvalidScale { scale } => ProblemView::InvalidScale { scale: *scale },
            LayoutProblem::Overlap { a, b } => ProblemView::Overlap { a: *a, b: *b },
            LayoutProblem::NotAdjacent => ProblemView::NotAdjacent,
            LayoutProblem::NotNormalized { min_x, min_y } => ProblemView::NotNormalized {
                min_x: *min_x,
                min_y: *min_y,
            },
            LayoutProblem::GlobalScaleMismatch { details } => ProblemView::GlobalScaleMismatch {
                details: details@,
            },
            LayoutProblem::FractionalScaleInPhysicalMode { scale } =>
                ProblemView::FractionalScaleInPhysicalMode { scale: *scale },
            LayoutProblem::MirroringUnsupported => ProblemView::MirroringUnsupported,
            LayoutProblem::MonitorForLease { connector } => ProblemView::MonitorForLease {
                connector: connector@,
            },
            LayoutProblem::UnsupportedColorMode { connector } => ProblemView::UnsupportedColorMode {
                connector: connector@,
            },
        }
    }
}

pub open spec fn problems_view(s: Seq<LayoutProblem>) -> Seq<ProblemView> {
    s.map_values(|p: LayoutProblem| p@)
}

pub open spec fn auto_fixable(p: ProblemView) -> bool {
    p is NotNormalized
}

impl LayoutProblem {
    /// `NotNormalized` is fixable by [`normalize`]; everything else needs a
    /// change of the layout.
    pub fn is_auto_fixable(&self) -> (r: bool)
        ensures
            r == auto_fixable(self@),
    {
        matches!(self, LayoutProblem::NotNormalized { .. })
    }
}

/// Compositor policy flags that affect validation.
#[derive(Debug, Clone, Copy, PartialEq, Eq, Structural)]
pub struct ValidationPolicy {
    /// `global-scale-required`: all logical displays must share one scale.
    pub global_scale_required: bool,
    /// `supports-mirroring` (absent means supported).
    pub supports_mirroring: bool,
}

impl Default for ValidationPolicy {
    fn default() -> (r: Self)
        ensures
            r == (ValidationPolicy { global_scale_required: false, supports_mirroring: true }),
    {
        ValidationPolicy { global_scale_required: false, supports_mirroring: true }
    }
}

pub open spec fn policy_of(state: DisplayState) -> ValidationPolicy {
    ValidationPolicy {
        global_scale_required: state.global_scale_required,
        supports_mirroring: match state.supports_mirroring {
            Some(b) => b,
            None => true,
        },
    }
}

impl ValidationPolicy {
    pub fn from_state(state: &DisplayState) -> (r: Self)
        ensures
            r == policy_of(*state),
    {
        ValidationPolicy {
            global_scale_required: state.global_scale_required,
            supports_mirroring: match state.supports_mirroring {
                Some(b) => b,
                None => true,
            },
        }
    }
}

// ---------------------------------------------------------------------
// The rule set, section by section.
// ---------------------------------------------------------------------

/// Connectors of the assignments that come before assignment `j` of display
/// `i`, in layout order.
pub open spec fn seen_before(d: Seq<DisplayView>, i: int, j: int) -> Seq<Seq<char>> {
    enabled_of(d.subrange(0, i)) + d[i].monitors.subrange(0, j).map_values(
        |a: AssignmentView| a.connector,
    )
}

/// Problems of assignment `j` of display `i`: a repeated monitor, then an
/// unknown connector, mode, or scale.
pub open spec fn assignment_problems(
    m: Seq<MonitorView>,
    d: Seq<DisplayView>,
    mode: LayoutMode,
    i: int,
    j: int,
) -> Seq<ProblemView> {
    let disp = d[i];
    let a = disp.monitors[j];
    let dup = if seen_before(d, i, j).contains(a.connector) {
        seq![ProblemView::MonitorInMultipleGroups { connector: a.connector }]
    } else {
        Seq::empty()
    };
    let res = match find_monitor(m, a.connector) {
        None => seq![ProblemView::UnknownConnector { connector: a.connector }],
        Some(mi) => match find_mode(m[mi].modes, a.mode_id) {
            None => seq![ProblemView::UnknownMode { connector: a.connector, mode_id: a.mode_id }],
            Some(k) => if mode == LayoutMode::Logical && disp.scale > 0 && !scale_listed(
                m[mi].modes[k].scales,
                disp.scale as int,
            ) {
                seq![
                    ProblemView::UnsupportedScale {
                        connector: a.connector,
                        mode_id: a.mode_id,
                        scale: disp.scale,
                    },
                ]
            } else {
                Seq::empty()
            },
        },
    };
    dup + res
}

pub open spec fn assignments_problems_upto(
    m: Seq<MonitorView>,
    d: Seq<DisplayView>,
    mode: LayoutMode,
    i: int,
    n: int,
) -> Seq<ProblemView>
    decreases n,
{
    if n <= 0 {
        Seq::empty()
    } else {
        assignments_problems_upto(m, d, mode, i, n - 1) + assignment_problems(m, d, mode, i, n - 1)
    }
}

/// Problems of display `i` found while resolving monitors and modes.
pub open spec fn display_problems(
    m: Seq<MonitorView>,
    d: Seq<DisplayView>,
    mode: LayoutMode,
    i: int,
) -> Seq<ProblemView> {
    (if d[i].monitors.len() == 0 {
        seq![ProblemView::EmptyGroup]
    } else {
        Seq::empty()
    }) + (if d[i].scale <= 0 {
        seq![ProblemView::InvalidScale { scale: d[i].scale }]
    } else {
        Seq::empty()
    }) + assignments_problems_upto(m, d, mode, i, d[i].monitors.len() as int)
}

pub open spec fn resolution_problems(
    m: Seq<MonitorView>,
    d: Seq<DisplayView>,
    mode: LayoutMode,
    n: int,
) -> Seq<ProblemView>
    decreases n,
{
    if n <= 0 {
        Seq::empty()
    } else {
        resolution_problems(m, d, mode, n - 1) + display_problems(m, d, mode, n - 1)
    }
}

pub open spec fn mirroring_problems(d: Seq<DisplayView>, policy: ValidationPolicy) -> Seq<
    ProblemView,
> {
    if !policy.supports_mirroring && exists|i: int|
        0 <= i < d.len() && (#[trigger] d[i]).monitors.len() > 1 {
        seq![ProblemView::MirroringUnsupported]
    } else {
        Seq::empty()
    }
}

/// Digits `0`–`9` as characters.
pub open spec fn dchar(v: int) -> char {
    ((v + 48) as u32) as char
}

/// `s` without trailing `0` characters.
pub open spec fn strip_zeros(s: Seq<char>) -> Seq<char>
    decreases s.len(),
{
    if s.len() > 0 && s.last() == '0' {
        strip_zeros(s.drop_last())
    } else {
        s
    }
}

/// The six decimal places of a fraction in millionths.
pub open spec fn six_places(f: int) -> Seq<char> {
    seq![
        dchar(f / 100000 % 10),
        dchar(f / 10000 % 10),
        dchar(f / 1000 % 10),
        dchar(f / 100 % 10),
        dchar(f / 10 % 10),
        dchar(f % 10),
    ]
}

/// Shortest decimal text of a scale in millionths (`1.5`, `2`, `1.25`).
pub open spec fn scale_text(s: int) -> Seq<char> {
    let a = abs_int(s);
    let ip = a / 1_000_000;
    let fp = a % 1_000_000;
    (if s < 0 {
        "-"@
    } else {
        Seq::empty()
    }) + nat_digits(ip as nat) + if fp == 0 {
        Seq::empty()
    } else {
        "."@ + strip_zeros(six_places(fp))
    }
}

/// `parts` joined with `, `.
pub open spec fn join_comma(parts: Seq<Seq<char>>) -> Seq<char>
    decreases parts.len(),
{
    if parts.len() == 0 {
        Seq::empty()
    } else if parts.len() == 1 {
        parts[0]
    } else {
        join_comma(parts.drop_last()) + ", "@ + parts.last()
    }
}

pub open spec fn scales_texts(d: Seq<DisplayView>) -> Seq<Seq<char>> {
    d.map_values(|x: DisplayView| scale_text(x.scale as int))
}

pub open spec fn global_scale_problems(d: Seq<DisplayView>, policy: ValidationPolicy) -> Seq<
    ProblemView,
> {
    if policy.global_scale_required && d.len() > 0 && exists|i: int|
        0 <= i < d.len() && !approx((#[trigger] d[i]).scale as int, d[0].scale as int, SCALE_EPS as int) {
        seq![ProblemView::GlobalScaleMismatch { details: join_comma(scales_texts(d)) }]
    } else {
        Seq::empty()
    }
}

/// A scale is not within `SCALE_EPS` of a whole number.
pub open spec fn fractional(s: int) -> bool {
    abs_int(s - round_div(s, SCALE_ONE as int) * SCALE_ONE) > SCALE_EPS
}

pub open spec fn physical_problems_upto(d: Seq<DisplayView>, mode: LayoutMode, n: int) -> Seq<
    ProblemView,
>
    decreases n,
{
    if n <= 0 || mode != LayoutMode::Physical {
        Seq::empty()
    } else {
        physical_problems_upto(d, mode, n - 1) + if fractional(d[n - 1].scale as int) {
            seq![ProblemView::FractionalScaleInPhysicalMode { scale: d[n - 1].scale }]
        } else {
            Seq::empty()
        }
    }
}

/// Leased monitors and unsupported color modes for one assignment.
pub open spec fn capability_problem(m: Seq<MonitorView>, a: AssignmentView) -> Seq<ProblemView> {
    match find_monitor(m, a.connector) {
        None => Seq::empty(),
        Some(mi) => (if m[mi].is_for_lease {
            seq![ProblemView::MonitorForLease { connector: a.connector }]
        } else {
            Seq::empty()
        }) + match a.color_mode {
            Some(c) => if m[mi].supported_color_modes.len() > 0
                && !m[mi].supported_color_modes.contains(c) {
                seq![ProblemView::UnsupportedColorMode { connector: a.connector }]
            } else {
                Seq::empty()
            },
            None => Seq::empty(),
        },
    }
}

pub open spec fn capability_members(m: Seq<MonitorView>, members: Seq<AssignmentView>, n: int) -> Seq<
    ProblemView,
>
    decreases n,
{
    if n <= 0 {
        Seq::empty()
    } else {
        capability_members(m, members, n - 1) + capability_problem(m, members[n - 1])
    }
}

pub open spec fn capability_problems(m: Seq<MonitorView>, d: Seq<DisplayView>, n: int) -> Seq<
    ProblemView,
>
    decreases n,
{
    if n <= 0 {
        Seq::empty()
    } else {
        capability_problems(m, d, n - 1) + capability_members(
            m,
            d[n - 1].monitors,
            d[n - 1].monitors.len() as int,
        )
    }
}

/// Connectors and mode sizes of the members (first `n`) whose modes
/// resolve.
pub open spec fn member_sizes(m: Seq<MonitorView>, members: Seq<AssignmentView>, n: int) -> Seq<
    (Seq<char>, (i32, i32)),
>
    decreases n,
{
    if n <= 0 {
        Seq::empty()
    } else {
        let prev = member_sizes(m, members, n - 1);
        match assigned_mode(m, members[n - 1]) {
            Some(md) => prev.push((members[n - 1].connector, (md.width, md.height))),
            None => prev,
        }
    }
}

/// `c: w×h` text of one member size.
pub open spec fn size_entry(e: (Seq<char>, (i32, i32))) -> Seq<char> {
    e.0 + ": "@ + int_text(e.1.0 as int) + "×"@ + int_text(e.1.1 as int)
}

pub open spec fn sizes_differ(s: Seq<(Seq<char>, (i32, i32))>) -> bool {
    exists|a: int, b: int| 0 <= a < s.len() && 0 <= b < s.len() && #[trigger] s[a].1 != #[trigger] s[b].1
}

pub open spec fn mismatch_problems(m: Seq<MonitorView>, d: Seq<DisplayView>, n: int) -> Seq<
    ProblemView,
>
    decreases n,
{
    if n <= 0 {
        Seq::empty()
    } else {
        let sizes = member_sizes(m, d[n - 1].monitors, d[n - 1].monitors.len() as int);
        mismatch_problems(m, d, n - 1) + if d[n - 1].monitors.len() >= 2 && sizes_differ(sizes) {
            seq![
                ProblemView::MirrorResolutionMismatch {
                    group: n as usize,
                    details: join_comma(sizes.map_values(|e: (Seq<char>, (i32, i32))| size_entry(e))),
                },
            ]
        } else {
            Seq::empty()
        }
    }
}

pub open spec fn count_primary(d: Seq<DisplayView>) -> nat
    decreases d.len(),
{
    if d.len() == 0 {
        0
    } else {
        count_primary(d.drop_last()) + if d.last().primary {
            1nat
        } else {
            0nat
        }
    }
}

pub open spec fn primary_problems(d: Seq<DisplayView>) -> Seq<ProblemView> {
    let c = count_primary(d);
    if c == 0 {
        seq![ProblemView::MissingPrimary]
    } else if c > 1 {
        seq![ProblemView::MultiplePrimary]
    } else {
        Seq::empty()
    }
}

/// Rectangles of the first `n` displays whose size resolves, with their
/// display indices.
pub open spec fn resolved_upto(
    m: Seq<MonitorView>,
    d: Seq<DisplayView>,
    mode: LayoutMode,
    n: int,
) -> Seq<(int, Rect)>
    decreases n,
{
    if n <= 0 {
        Seq::empty()
    } else {
        let prev = resolved_upto(m, d, mode, n - 1);
        match rect_of(m, d[n - 1], mode) {
            Some(r) => prev.push((n - 1, r)),
            None => prev,
        }
    }
}

pub open spec fn rects_of(res: Seq<(int, Rect)>) -> Seq<Rect> {
    res.map_values(|p: (int, Rect)| p.1)
}

/// Overlaps of entry `a` with the entries in `a+1 .. n`.
pub open spec fn overlaps_with(res: Seq<(int, Rect)>, a: int, n: int) -> Seq<ProblemView>
    decreases n - a,
{
    if n <= a + 1 {
        Seq::empty()
    } else {
        overlaps_with(res, a, n - 1) + if res[a].1.overlaps_spec(res[n - 1].1) {
            seq![ProblemView::Overlap { a: (res[a].0 + 1) as usize, b: (res[n - 1].0 + 1) as usize }]
        } else {
            Seq::empty()
        }
    }
}

pub open spec fn overlap_problems(res: Seq<(int, Rect)>, n: int) -> Seq<ProblemView>
    decreases n,
{
    if n <= 0 {
        Seq::empty()
    } else {
        overlap_problems(res, n - 1) + overlaps_with(res, n - 1, res.len() as int)
    }
}

pub open spec fn adjacency_problems(res: Seq<(int, Rect)>) -> Seq<ProblemView> {
    if res.len() > 1 && !all_reachable(rects_of(res)) {
        seq![ProblemView::NotAdjacent]
    } else {
        Seq::empty()
    }
}

pub open spec fn origin_problems(res: Seq<(int, Rect)>) -> Seq<ProblemView> {
    let rs = rects_of(res);
    if res.len() > 0 && (min_x(rs) != 0 || min_y(rs) != 0) {
        seq![ProblemView::NotNormalized { min_x: min_x(rs) as i32, min_y: min_y(rs) as i32 }]
    } else {
        Seq::empty()
    }
}

/// The geometric part: overlaps, then connectivity, then the origin.
pub open spec fn geometry_problems(m: Seq<MonitorView>, d: Seq<DisplayView>, mode: LayoutMode) -> Seq<
    ProblemView,
> {
    let res = resolved_upto(m, d, mode, d.len() as int);
    overlap_problems(res, res.len() as int) + adjacency_problems(res) + origin_problems(res)
}

/// Everything `validate_with_policy` reports, in order.
pub open spec fn validate_spec(m: Seq<MonitorView>, l: LayoutView, policy: ValidationPolicy) -> Seq<
    ProblemView,
> {
    let d = l.displays;
    if d.len() == 0 {
        seq![ProblemView::NoActiveDisplays]
    } else {
        resolution_problems(m, d, l.layout_mode, d.len() as int) + mirroring_problems(d, policy)
            + global_scale_problems(d, policy) + physical_problems_upto(
            d,
            l.layout_mode,
            d.len() as int,
        ) + capability_problems(m, d, d.len() as int) + mismatch_problems(m, d, d.len() as int)
            + primary_problems(d) + geometry_problems(m, d, l.layout_mode)
    }
}


// ---------------------------------------------------------------------
// Executable checks.
// ---------------------------------------------------------------------

fn push_problem(out: &mut Vec<LayoutProblem>, p: LayoutProblem)
    ensures
        problems_view(final(out)@) == problems_view(old(out)@).push(p@),
{
    out.push(p);
    assert(problems_view(out@) =~= problems_view(old(out)@).push(p@));
}

/// Whether a connector is among `seen`.
fn seen_contains(seen: &Vec<&String>, c: &String) -> (r: bool)
    ensures
        r == seen@.map_values(|s: &String| s@).contains(c@),
{
    let ghost sv = seen@.map_values(|s: &String| s@);
    let mut k: usize = 0;
    while k < seen.len()
        invariant
            sv == seen@.map_values(|s: &String| s@),
            k <= seen@.len(),
            forall|t: int| 0 <= t < k ==> sv[t] != c@,
        decreases seen@.len() - k,
    {
        assert(sv[k as int] == seen@[k as int]@);
        if *seen[k] == *c {
            assert(sv[k as int] == c@);
            return true;
        }
        k += 1;
    }
    false
}

proof fn lemma_enabled_step(d: Seq<DisplayView>, i: int)
    requires
        0 <= i < d.len(),
    ensures
        enabled_of(d.subrange(0, i + 1)) == enabled_of(d.subrange(0, i)) + d[i].monitors.map_values(
            |a: AssignmentView| a.connector,
        ),
{
    assert(d.subrange(0, i + 1).drop_last() =~= d.subrange(0, i));
}

/// Display-by-display resolution of monitors, modes and scales.
fn check_resolution(
    monitors: &[PhysicalMonitor],
    layout: &DisplayLayout,
    out: &mut Vec<LayoutProblem>,
)
    ensures
        problems_view(final(out)@) == problems_view(old(out)@) + resolution_problems(
            monitors_view(monitors@),
            layout@.displays,
            layout.layout_mode,
            layout@.displays.len() as int,
        ),
{
    let ghost mv = monitors_view(monitors@);
    let ghost dv = layout@.displays;
    let mode = layout.layout_mode;
    let mut seen: Vec<&String> = Vec::new();
    let mut i: usize = 0;
    while i < layout.logical_displays.len()
        invariant
            mv == monitors_view(monitors@),
            dv == layout@.displays,
            mode == layout.layout_mode,
            i <= dv.len(),
            seen@.map_values(|s: &String| s@) == enabled_of(dv.subrange(0, i as int)),
            problems_view(out@) == problems_view(old(out)@) + resolution_problems(mv, dv, mode, i as int),
        decreases dv.len() - i,
    {
        let d = &layout.logical_displays[i];
        assert(dv[i as int] == d@);
        let ghost base = problems_view(out@);
        if d.monitors.len() == 0 {
            push_problem(out, LayoutProblem::EmptyGroup);
        }
        if d.scale <= 0 {
            push_problem(out, LayoutProblem::InvalidScale { scale: d.scale });
        }
        let ghost head = problems_view(out@);
        assert(head == base + (if dv[i as int].monitors.len() == 0 {
            seq![ProblemView::EmptyGroup]
        } else {
            Seq::empty()
        }) + (if dv[i as int].scale <= 0 {
            seq![ProblemView::InvalidScale { scale: dv[i as int].scale }]
        } else {
            Seq::empty()
        }));
        let ghost seen0 = seen@.map_values(|s: &String| s@);
        let mut j: usize = 0;
        while j < d.monitors.len()
            invariant
                mv == monitors_view(monitors@),
                dv == layout@.displays,
                mode == layout.layout_mode,
                i < dv.len(),
                dv[i as int] == d@,
                j <= d.monitors@.len(),
                seen0 == enabled_of(dv.subrange(0, i as int)),
                seen@.map_values(|s: &String| s@) == seen_before(dv, i as int, j as int),
                problems_view(out@) == head + assignments_problems_upto(mv, dv, mode, i as int, j as int),
            decreases d.monitors@.len() - j,
        {
            let a = &d.monitors[j];
            assert(dv[i as int].monitors[j as int] == a@);
            let ghost before = problems_view(out@);
            if seen_contains(&seen, &a.connector) {
                push_problem(out, LayoutProblem::MonitorInMultipleGroups { connector: a.connector.clone() });
            }
            let ghost sprev = seen@;
            seen.push(&a.connector);
            proof {
                let lhs = seen@.map_values(|s: &String| s@);
                let rhs = seen_before(dv, i as int, j as int + 1);
                assert(dv[i as int].monitors.subrange(0, j as int + 1) =~= dv[i as int].monitors.subrange(0, j as int).push(a@));
                assert(lhs =~= sprev.map_values(|s: &String| s@).push(a.connector@));
                assert(lhs =~= rhs);
            }
            match find_monitor_index(monitors, a.connector.as_str()) {
                None => {
                    push_problem(out, LayoutProblem::UnknownConnector { connector: a.connector.clone() });
                },
                Some(mi) => {
                    assert(mv[mi as int] == monitors@[mi as int]@);
                    match monitors[mi].find_mode_index(a.mode_id.as_str()) {
                        None => {
                            push_problem(
                                out,
                                LayoutProblem::UnknownMode {
                                    connector: a.connector.clone(),
                                    mode_id: a.mode_id.clone(),
                                },
                            );
                        },
                        Some(k) => {
                            assert(mv[mi as int].modes[k as int] == monitors@[mi as int].modes@[k as int]@);
                            if mode == LayoutMode::Logical && d.scale > 0
                                && !monitors[mi].modes[k].supports_scale(d.scale) {
                                push_problem(
                                    out,
                                    LayoutProblem::UnsupportedScale {
                                        connector: a.connector.clone(),
                                        mode_id: a.mode_id.clone(),
                                        scale: d.scale,
                                    },
                                );
                            }
                        },
                    }
                },
            }
            assert(problems_view(out@) =~= before + assignment_problems(mv, dv, mode, i as int, j as int));
            j += 1;
        }
        proof {
            lemma_enabled_step(dv, i as int);
            assert(dv[i as int].monitors.subrange(0, dv[i as int].monitors.len() as int) =~= dv[i as int].monitors);
            assert(seen@.map_values(|s: &String| s@) =~= enabled_of(dv.subrange(0, i as int + 1)));
            assert(problems_view(out@) =~= problems_view(old(out)@) + resolution_problems(mv, dv, mode, i as int + 1));
        }
        i += 1;
    }
}


fn check_mirroring(layout: &DisplayLayout, policy: ValidationPolicy, out: &mut Vec<LayoutProblem>)
    ensures
        problems_view(final(out)@) == problems_view(old(out)@) + mirroring_problems(
            layout@.displays,
            policy,
        ),
{
    let ghost dv = layout@.displays;
    if policy.supports_mirroring {
        assert(problems_view(out@) =~= problems_view(old(out)@) + mirroring_problems(dv, policy));
        return;
    }
    let mut i: usize = 0;
    while i < layout.logical_displays.len()
        invariant
            dv == layout@.displays,
            !policy.supports_mirroring,
            out@ == old(out)@,
            i <= dv.len(),
            forall|k: int| 0 <= k < i ==> (#[trigger] dv[k]).monitors.len() <= 1,
        decreases dv.len() - i,
    {
        assert(dv[i as int] == layout.logical_displays@[i as int]@);
        if layout.logical_displays[i].monitors.len() > 1 {
            assert(dv[i as int].monitors.len() > 1);
            push_problem(out, LayoutProblem::MirroringUnsupported);
            assert(problems_view(out@) =~= problems_view(old(out)@) + mirroring_problems(dv, policy));
            return;
        }
        i += 1;
    }
    assert(!exists|k: int| 0 <= k < dv.len() && (#[trigger] dv[k]).monitors.len() > 1);
    assert(problems_view(out@) =~= problems_view(old(out)@) + mirroring_problems(dv, policy));
}

fn dchar_exec(v: i64) -> (r: char)
    requires
        0 <= v < 10,
    ensures
        r == dchar(v as int),
{
    let b: u8 = (v + 48) as u8;
    b as char
}

proof fn lemma_strip_zeros_step(s: Seq<char>, c: char)
    ensures
        c != '0' ==> strip_zeros(s.push(c)) == s.push(c),
        c == '0' ==> strip_zeros(s.push(c)) == strip_zeros(s),
{
    assert(s.push(c).drop_last() =~= s);
}

/// Appends `.` and the significant decimal places of a fraction in
/// millionths.
fn push_fraction(out: &mut String, fp: u64)
    requires
        0 < fp < 1_000_000,
    ensures
        final(out)@ == old(out)@ + "."@ + strip_zeros(six_places(fp as int)),
{
    push_str(out, ".");
    let f = fp as i64;
    let digits: [char; 6] = [
        dchar_exec(f / 100000 % 10),
        dchar_exec(f / 10000 % 10),
        dchar_exec(f / 1000 % 10),
        dchar_exec(f / 100 % 10),
        dchar_exec(f / 10 % 10),
        dchar_exec(f % 10),
    ];
    assert(digits@ =~= six_places(fp as int));
    assert(digits@.subrange(0, 6) =~= digits@);
    let mut end: usize = 6;
    while end > 0 && digits[end - 1] == '0'
        invariant
            end <= 6,
            digits@ == six_places(fp as int),
            strip_zeros(six_places(fp as int)) == strip_zeros(digits@.subrange(0, end as int)),
        decreases end,
    {
        proof {
            lemma_strip_zeros_step(digits@.subrange(0, end - 1), '0');
            assert(digits@.subrange(0, end - 1).push('0') =~= digits@.subrange(0, end as int));
        }
        end -= 1;
    }
    proof {
        if end > 0 {
            lemma_strip_zeros_step(digits@.subrange(0, end - 1), digits@[end - 1]);
            assert(digits@.subrange(0, end - 1).push(digits@[end - 1]) =~= digits@.subrange(
                0,
                end as int,
            ));
        } else {
            assert(digits@.subrange(0, 0) =~= Seq::<char>::empty());
        }
    }
    let ghost before_digits = out@;
    let mut k: usize = 0;
    while k < end
        invariant
            k <= end <= 6,
            out@ == before_digits + digits@.subrange(0, k as int),
        decreases end - k,
    {
        push_char(out, digits[k]);
        k += 1;
        assert(out@ =~= before_digits + digits@.subrange(0, k as int));
    }
    assert(out@ =~= old(out)@ + "."@ + strip_zeros(six_places(fp as int)));
}

/// Appends the shortest decimal text of a scale in millionths.
fn push_scale_text(out: &mut String, v: i64)
    ensures
        final(out)@ == old(out)@ + scale_text(v as int),
{
    let a: u64 = if v < 0 {
        if v == i64::MIN {
            9223372036854775808u64
        } else {
            (-v) as u64
        }
    } else {
        v as u64
    };
    assert(a == abs_int(v as int));
    if v < 0 {
        push_str(out, "-");
    }
    let ghost after_sign = out@;
    push_nat(out, a / 1_000_000);
    let ghost after_int = out@;
    let fp: u64 = a % 1_000_000;
    if fp != 0 {
        push_fraction(out, fp);
    }
    proof {
        reveal_strlit("-");
        assert(after_sign == old(out)@ + (if v < 0 {
            "-"@
        } else {
            Seq::empty()
        }));
        assert(out@ =~= after_int + (if fp == 0 {
            Seq::empty()
        } else {
            "."@ + strip_zeros(six_places(fp as int))
        }));
        assert(out@ =~= old(out)@ + scale_text(v as int));
    }
}

proof fn lemma_join_step(parts: Seq<Seq<char>>, x: Seq<char>)
    ensures
        parts.len() == 0 ==> join_comma(parts.push(x)) == x,
        parts.len() > 0 ==> join_comma(parts.push(x)) == join_comma(parts) + ", "@ + x,
{
    assert(parts.push(x).drop_last() =~= parts);
}

fn check_global_scale(layout: &DisplayLayout, policy: ValidationPolicy, out: &mut Vec<LayoutProblem>)
    ensures
        problems_view(final(out)@) == problems_view(old(out)@) + global_scale_problems(
            layout@.displays,
            policy,
        ),
{
    let ghost dv = layout@.displays;
    if !policy.global_scale_required || layout.logical_displays.len() == 0 {
        assert(problems_view(out@) =~= problems_view(old(out)@) + global_scale_problems(dv, policy));
        return;
    }
    let first = layout.logical_displays[0].scale;
    assert(dv[0] == layout.logical_displays@[0]@);
    let mut differs = false;
    let mut i: usize = 0;
    while i < layout.logical_displays.len()
        invariant
            dv == layout@.displays,
            dv.len() > 0,
            first == dv[0].scale,
            i <= dv.len(),
            differs == exists|k: int|
                0 <= k < i && !approx((#[trigger] dv[k]).scale as int, dv[0].scale as int, SCALE_EPS as int),
        decreases dv.len() - i,
    {
        assert(dv[i as int] == layout.logical_displays@[i as int]@);
        if !approx_eq(layout.logical_displays[i].scale, first, SCALE_EPS) {
            differs = true;
        }
        i += 1;
    }
    if !differs {
        assert(problems_view(out@) =~= problems_view(old(out)@) + global_scale_problems(dv, policy));
        return;
    }
    let mut details = String::new();
    let mut k: usize = 0;
    while k < layout.logical_displays.len()
        invariant
            dv == layout@.displays,
            k <= dv.len(),
            details@ == join_comma(scales_texts(dv.subrange(0, k as int))),
        decreases dv.len() - k,
    {
        assert(dv[k as int] == layout.logical_displays@[k as int]@);
        let ghost parts = scales_texts(dv.subrange(0, k as int));
        proof {
            lemma_join_step(parts, scale_text(dv[k as int].scale as int));
            assert(scales_texts(dv.subrange(0, k as int + 1)) =~= parts.push(scale_text(dv[k as int].scale as int)));
        }
        if k > 0 {
            push_str(&mut details, ", ");
        }
        push_scale_text(&mut details, layout.logical_displays[k].scale);
        k += 1;
        assert(details@ =~= join_comma(scales_texts(dv.subrange(0, k as int))));
    }
    assert(dv.subrange(0, dv.len() as int) =~= dv);
    push_problem(out, LayoutProblem::GlobalScaleMismatch { details });
    assert(problems_view(out@) =~= problems_view(old(out)@) + global_scale_problems(dv, policy));
}

/// Whether a scale is not within `SCALE_EPS` of a whole number.
fn is_fractional(s: i64) -> (r: bool)
    ensures
        r == fractional(s as int),
{
    let n: i128 = s as i128;
    let d: i128 = SCALE_ONE as i128;
    let q: i128 = if n >= 0 {
        (2 * n + d) / (2 * d)
    } else {
        -((2 * (-n) + d) / (2 * d))
    };
    proof {
        if n >= 0 {
            assert(0 <= (2 * n + d) / (2 * d) <= 2 * n + d) by (nonlinear_arith)
                requires
                    n >= 0,
                    d >= 1,
            ;
        } else {
            assert(0 <= (2 * (-n) + d) / (2 * d) <= 2 * (-n) + d) by (nonlinear_arith)
                requires
                    n < 0,
                    d >= 1,
            ;
        }
    }
    let diff: i128 = n - q * d;
    let ad: i128 = if diff < 0 {
        -diff
    } else {
        diff
    };
    ad > SCALE_EPS as i128
}

fn check_physical(layout: &DisplayLayout, out: &mut Vec<LayoutProblem>)
    ensures
        problems_view(final(out)@) == problems_view(old(out)@) + physical_problems_upto(
            layout@.displays,
            layout.layout_mode,
            layout@.displays.len() as int,
        ),
{
    let ghost dv = layout@.displays;
    let mode = layout.layout_mode;
    if mode != LayoutMode::Physical {
        assert(problems_view(out@) =~= problems_view(old(out)@) + physical_problems_upto(dv, mode, dv.len() as int));
        return;
    }
    let mut i: usize = 0;
    while i < layout.logical_displays.len()
        invariant
            dv == layout@.displays,
            mode == layout.layout_mode,
            mode == LayoutMode::Physical,
            i <= dv.len(),
            problems_view(out@) == problems_view(old(out)@) + physical_problems_upto(dv, mode, i as int),
        decreases dv.len() - i,
    {
        assert(dv[i as int] == layout.logical_displays@[i as int]@);
        let sc = layout.logical_displays[i].scale;
        if is_fractional(sc) {
            push_problem(out, LayoutProblem::FractionalScaleInPhysicalMode { scale: sc });
        }
        i += 1;
        assert(problems_view(out@) =~= problems_view(old(out)@) + physical_problems_upto(dv, mode, i as int));
    }
}

fn color_supported(modes: &Vec<ColorMode>, c: ColorMode) -> (r: bool)
    ensures
        r == modes@.contains(c),
{
    let mut k: usize = 0;
    while k < modes.len()
        invariant
            k <= modes@.len(),
            forall|t: int| 0 <= t < k ==> modes@[t] != c,
        decreases modes@.len() - k,
    {
        if modes[k] == c {
            assert(modes@[k as int] == c);
            return true;
        }
        k += 1;
    }
    false
}

fn check_capabilities(monitors: &[PhysicalMonitor], layout: &DisplayLayout, out: &mut Vec<LayoutProblem>)
    ensures
        problems_view(final(out)@) == problems_view(old(out)@) + capability_problems(
            monitors_view(monitors@),
            layout@.displays,
            layout@.displays.len() as int,
        ),
{
    let ghost mv = monitors_view(monitors@);
    let ghost dv = layout@.displays;
    let mut i: usize = 0;
    while i < layout.logical_displays.len()
        invariant
            mv == monitors_view(monitors@),
            dv == layout@.displays,
            i <= dv.len(),
            problems_view(out@) == problems_view(old(out)@) + capability_problems(mv, dv, i as int),
        decreases dv.len() - i,
    {
        let d = &layout.logical_displays[i];
        assert(dv[i as int] == d@);
        let ghost head = problems_view(out@);
        let mut j: usize = 0;
        while j < d.monitors.len()
            invariant
                mv == monitors_view(monitors@),
                dv == layout@.displays,
                i < dv.len(),
                dv[i as int] == d@,
                j <= d.monitors@.len(),
                problems_view(out@) == head + capability_members(mv, dv[i as int].monitors, j as int),
            decreases d.monitors@.len() - j,
        {
            let a = &d.monitors[j];
            assert(dv[i as int].monitors[j as int] == a@);
            let ghost before = problems_view(out@);
            match find_monitor_index(monitors, a.connector.as_str()) {
                None => {},
                Some(mi) => {
                    assert(mv[mi as int] == monitors@[mi as int]@);
                    let m = &monitors[mi];
                    if m.is_for_lease {
                        push_problem(out, LayoutProblem::MonitorForLease { connector: a.connector.clone() });
                    }
                    match a.color_mode {
                        Some(c) => {
                            if m.supported_color_modes.len() > 0 && !color_supported(&m.supported_color_modes, c) {
                                push_problem(
                                    out,
                                    LayoutProblem::UnsupportedColorMode { connector: a.connector.clone() },
                                );
                            }
                        },
                        None => {},
                    }
                },
            }
            assert(problems_view(out@) =~= before + capability_problem(mv, a@));
            j += 1;
        }
        i += 1;
    }
}

proof fn lemma_sizes_differ_step(s: Seq<(Seq<char>, (i32, i32))>, e: (Seq<char>, (i32, i32)))
    requires
        s.len() > 0,
    ensures
        sizes_differ(s.push(e)) == (sizes_differ(s) || e.1 != s[0].1),
{
    let t = s.push(e);
    if sizes_differ(s) {
        let (a, b) = choose|a: int, b: int| 0 <= a < s.len() && 0 <= b < s.len() && #[trigger] s[a].1 != #[trigger] s[b].1;
        assert(t[a] == s[a] && t[b] == s[b]);
    }
    if e.1 != s[0].1 {
        assert(t[0] == s[0] && t[s.len() as int] == e);
    }
    if sizes_differ(t) {
        let (a, b) = choose|a: int, b: int| 0 <= a < t.len() && 0 <= b < t.len() && #[trigger] t[a].1 != #[trigger] t[b].1;
        if !sizes_differ(s) && e.1 == s[0].1 {
            assert forall|x: int| 0 <= x < t.len() implies #[trigger] t[x].1 == s[0].1 by {
                if x < s.len() {
                    assert(t[x] == s[x]);
                    if s[x].1 != s[0].1 {
                        assert(sizes_differ(s));
                    }
                }
            }
            assert(t[a].1 == t[b].1);
        }
    }
}

fn check_mirror_sizes(monitors: &[PhysicalMonitor], layout: &DisplayLayout, out: &mut Vec<LayoutProblem>)
    ensures
        problems_view(final(out)@) == problems_view(old(out)@) + mismatch_problems(
            monitors_view(monitors@),
            layout@.displays,
            layout@.displays.len() as int,
        ),
{
    let ghost mv = monitors_view(monitors@);
    let ghost dv = layout@.displays;
    let mut i: usize = 0;
    while i < layout.logical_displays.len()
        invariant
            mv == monitors_view(monitors@),
            dv == layout@.displays,
            i <= dv.len(),
            problems_view(out@) == problems_view(old(out)@) + mismatch_problems(mv, dv, i as int),
        decreases dv.len() - i,
    {
        let d = &layout.logical_displays[i];
        assert(dv[i as int] == d@);
        let ghost members = dv[i as int].monitors;
        if d.monitors.len() >= 2 {
            let mut details = String::new();
            let mut count: usize = 0;
            let mut first: (i32, i32) = (0, 0);
            let mut differs = false;
            let mut j: usize = 0;
            while j < d.monitors.len()
                invariant
                    mv == monitors_view(monitors@),
                    dv == layout@.displays,
                    i < dv.len(),
                    dv[i as int] == d@,
                    members == dv[i as int].monitors,
                    j <= d.monitors@.len(),
                    count == member_sizes(mv, members, j as int).len(),
                    count <= j,
                    count > 0 ==> first == member_sizes(mv, members, j as int)[0].1,
                    differs == sizes_differ(member_sizes(mv, members, j as int)),
                    details@ == join_comma(member_sizes(mv, members, j as int).map_values(
                        |e: (Seq<char>, (i32, i32))| size_entry(e),
                    )),
                decreases d.monitors@.len() - j,
            {
                let a = &d.monitors[j];
                assert(members[j as int] == a@);
                let ghost prev = member_sizes(mv, members, j as int);
                match resolve_assignment(monitors, a) {
                    None => {},
                    Some((mi, k)) => {
                        let md = &monitors[mi].modes[k];
                        let size = (md.width, md.height);
                        let ghost e = (a@.connector, size);
                        proof {
                            assert(member_sizes(mv, members, j as int + 1) == prev.push(e));
                            lemma_join_step(prev.map_values(|e: (Seq<char>, (i32, i32))| size_entry(e)), size_entry(e));
                            assert(prev.push(e).map_values(|e: (Seq<char>, (i32, i32))| size_entry(e)) =~= prev.map_values(
                                |e: (Seq<char>, (i32, i32))| size_entry(e),
                            ).push(size_entry(e)));
                            if count > 0 {
                                lemma_sizes_differ_step(prev, e);
                            } else {
                                assert(!sizes_differ(prev.push(e)));
                            }
                        }
                        if count > 0 {
                            push_str(&mut details, ", ");
                            if size.0 != first.0 || size.1 != first.1 {
                                differs = true;
                            }
                        } else {
                            first = size;
                        }
                        push_str(&mut details, a.connector.as_str());
                        push_str(&mut details, ": ");
                        push_int(&mut details, size.0 as i64);
                        push_str(&mut details, "×");
                        push_int(&mut details, size.1 as i64);
                        count += 1;
                        proof {
                            assert(size_entry(e) == a@.connector + ": "@ + int_text(size.0 as int) + "×"@ + int_text(size.1 as int));
                            reveal_strlit(", ");
                        }
                        assert(details@ =~= join_comma(member_sizes(mv, members, j as int + 1).map_values(
                            |e: (Seq<char>, (i32, i32))| size_entry(e),
                        )));
                    },
                }
                j += 1;
            }
            if differs {
                push_problem(out, LayoutProblem::MirrorResolutionMismatch { group: i + 1, details });
            }
        }
        i += 1;
        assert(problems_view(out@) =~= problems_view(old(out)@) + mismatch_problems(mv, dv, i as int));
    }
}

proof fn lemma_count_primary_step(d: Seq<DisplayView>, i: int)
    requires
        0 <= i < d.len(),
    ensures
        count_primary(d.subrange(0, i + 1)) == count_primary(d.subrange(0, i)) + if d[i].primary {
            1nat
        } else {
            0nat
        },
{
    assert(d.subrange(0, i + 1).drop_last() =~= d.subrange(0, i));
}

proof fn lemma_count_primary_bound(d: Seq<DisplayView>)
    ensures
        count_primary(d) <= d.len(),
    decreases d.len(),
{
    if d.len() > 0 {
        lemma_count_primary_bound(d.drop_last());
    }
}

fn check_primary(layout: &DisplayLayout, out: &mut Vec<LayoutProblem>)
    ensures
        problems_view(final(out)@) == problems_view(old(out)@) + primary_problems(layout@.displays),
{
    let ghost dv = layout@.displays;
    let mut count: usize = 0;
    let mut i: usize = 0;
    while i < layout.logical_displays.len()
        invariant
            dv == layout@.displays,
            i <= dv.len(),
            count == count_primary(dv.subrange(0, i as int)),
        decreases dv.len() - i,
    {
        assert(dv[i as int] == layout.logical_displays@[i as int]@);
        proof {
            lemma_count_primary_step(dv, i as int);
            lemma_count_primary_bound(dv.subrange(0, i as int));
        }
        if layout.logical_displays[i].primary {
            count += 1;
        }
        i += 1;
    }
    assert(dv.subrange(0, dv.len() as int) =~= dv);
    if count == 0 {
        push_problem(out, LayoutProblem::MissingPrimary);
    } else if count > 1 {
        push_problem(out, LayoutProblem::MultiplePrimary);
    }
    assert(problems_view(out@) =~= problems_view(old(out)@) + primary_problems(dv));
}

/// The resolved rectangles of the layout, with the indices of their
/// displays.
fn resolved_rects(monitors: &[PhysicalMonitor], layout: &DisplayLayout) -> (r: (Vec<usize>, Vec<Rect>))
    ensures
        r.0@.len() == r.1@.len(),
        r.1@.len() == resolved_upto(
            monitors_view(monitors@),
            layout@.displays,
            layout.layout_mode,
            layout@.displays.len() as int,
        ).len(),
        forall|k: int|
            0 <= k < r.1@.len() ==> (r.0@[k] as int, r.1@[k]) == #[trigger] resolved_upto(
                monitors_view(monitors@),
                layout@.displays,
                layout.layout_mode,
                layout@.displays.len() as int,
            )[k],
        forall|k: int| 0 <= k < r.0@.len() ==> #[trigger] r.0@[k] < layout@.displays.len(),
{
    let ghost mv = monitors_view(monitors@);
    let ghost dv = layout@.displays;
    let mode = layout.layout_mode;
    let mut idx: Vec<usize> = Vec::new();
    let mut rects: Vec<Rect> = Vec::new();
    let mut i: usize = 0;
    while i < layout.logical_displays.len()
        invariant
            mv == monitors_view(monitors@),
            dv == layout@.displays,
            mode == layout.layout_mode,
            i <= dv.len(),
            idx@.len() == rects@.len(),
            rects@.len() == resolved_upto(mv, dv, mode, i as int).len(),
            forall|k: int|
                0 <= k < rects@.len() ==> (idx@[k] as int, rects@[k]) == #[trigger] resolved_upto(
                    mv,
                    dv,
                    mode,
                    i as int,
                )[k],
            forall|k: int| 0 <= k < idx@.len() ==> #[trigger] idx@[k] < i,
        decreases dv.len() - i,
    {
        assert(dv[i as int] == layout.logical_displays@[i as int]@);
        match layout.logical_displays[i].rect(monitors, mode) {
            Some(r) => {
                idx.push(i);
                rects.push(r);
            },
            None => {},
        }
        i += 1;
    }
    (idx, rects)
}

proof fn lemma_rects_of(res: Seq<(int, Rect)>, rects: Seq<Rect>)
    requires
        rects.len() == res.len(),
        forall|k: int| 0 <= k < rects.len() ==> rects[k] == (#[trigger] res[k]).1,
    ensures
        rects == rects_of(res),
{
    assert(rects =~= rects_of(res));
}

/// Overlaps, connectivity and the origin of the resolved rectangles.
fn check_geometry(monitors: &[PhysicalMonitor], layout: &DisplayLayout, out: &mut Vec<LayoutProblem>)
    ensures
        problems_view(final(out)@) == problems_view(old(out)@) + geometry_problems(
            monitors_view(monitors@),
            layout@.displays,
            layout.layout_mode,
        ),
{
    let ghost mv = monitors_view(monitors@);
    let ghost dv = layout@.displays;
    let (idx, rects) = resolved_rects(monitors, layout);
    let ghost res = resolved_upto(mv, dv, layout.layout_mode, dv.len() as int);
    proof {
        lemma_rects_of(res, rects@);
    }
    let n = rects.len();
    let nd = layout.logical_displays.len();
    assert(dv.len() == nd);
    let mut a: usize = 0;
    while a < n
        invariant
            n == rects@.len(),
            n == res.len(),
            idx@.len() == n,
            forall|k: int| 0 <= k < n ==> (idx@[k] as int, rects@[k]) == #[trigger] res[k],
            forall|k: int| 0 <= k < n ==> #[trigger] idx@[k] < dv.len(),
            dv.len() <= usize::MAX,
            a <= n,
            problems_view(out@) == problems_view(old(out)@) + overlap_problems(res, a as int),
        decreases n - a,
    {
        let ghost head = problems_view(out@);
        let mut b: usize = a + 1;
        assert(overlaps_with(res, a as int, a as int + 1) == Seq::<ProblemView>::empty());
        while b < n
            invariant
                n == rects@.len(),
                n == res.len(),
                idx@.len() == n,
                forall|k: int| 0 <= k < n ==> (idx@[k] as int, rects@[k]) == #[trigger] res[k],
                forall|k: int| 0 <= k < n ==> #[trigger] idx@[k] < dv.len(),
                dv.len() <= usize::MAX,
                a < n,
                a + 1 <= b <= n,
                problems_view(out@) == head + overlaps_with(res, a as int, b as int),
            decreases n - b,
        {
            assert((idx@[a as int] as int, rects@[a as int]) == res[a as int]);
            assert((idx@[b as int] as int, rects@[b as int]) == res[b as int]);
            assert(idx@[a as int] < dv.len() && idx@[b as int] < dv.len());
            if rects[a].overlaps(&rects[b]) {
                push_problem(out, LayoutProblem::Overlap { a: idx[a] + 1, b: idx[b] + 1 });
            }
            b += 1;
        }
        a += 1;
        assert(problems_view(out@) =~= problems_view(old(out)@) + overlap_problems(res, a as int));
    }
    let ghost before_adj = problems_view(out@);
    assert(before_adj == problems_view(old(out)@) + overlap_problems(res, res.len() as int));
    if n > 1 && !all_connected(rects.as_slice()) {
        push_problem(out, LayoutProblem::NotAdjacent);
    }
    assert(problems_view(out@) =~= before_adj + adjacency_problems(res));
    let ghost before_origin = problems_view(out@);
    proof {
        if n > 0 {
            lemma_extremes(rects@);
        }
    }
    match bounding_origin(rects.as_slice()) {
        Some((x, y)) => {
            if x != 0 || y != 0 {
                push_problem(out, LayoutProblem::NotNormalized { min_x: x, min_y: y });
            }
        },
        None => {},
    }
    assert(problems_view(out@) =~= before_origin + origin_problems(res));
    assert(geometry_problems(mv, dv, layout.layout_mode) == overlap_problems(res, res.len() as int)
        + adjacency_problems(res) + origin_problems(res));
    assert(problems_view(out@) =~= problems_view(old(out)@) + geometry_problems(mv, dv, layout.layout_mode));
}

/// Full validation with explicit policy flags. Returns all problems found,
/// in rule order (empty = valid).
pub fn validate_with_policy(
    monitors: &[PhysicalMonitor],
    layout: &DisplayLayout,
    policy: ValidationPolicy,
) -> (r: Vec<LayoutProblem>)
    ensures
        problems_view(r@) == validate_spec(monitors_view(monitors@), layout@, policy),
{
    let mut problems: Vec<LayoutProblem> = Vec::new();
    if layout.logical_displays.len() == 0 {
        push_problem(&mut problems, LayoutProblem::NoActiveDisplays);
        assert(problems_view(problems@) =~= validate_spec(monitors_view(monitors@), layout@, policy));
        return problems;
    }
    assert(problems_view(problems@) =~= Seq::<ProblemView>::empty());
    check_resolution(monitors, layout, &mut problems);
    check_mirroring(layout, policy, &mut problems);
    check_global_scale(layout, policy, &mut problems);
    check_physical(layout, &mut problems);
    check_capabilities(monitors, layout, &mut problems);
    check_mirror_sizes(monitors, layout, &mut problems);
    check_primary(layout, &mut problems);
    check_geometry(monitors, layout, &mut problems);
    assert(problems_view(problems@) =~= validate_spec(monitors_view(monitors@), layout@, policy));
    problems
}

/// Validates `layout` against the connected `monitors` with the default
/// policy (no global-scale requirement, mirroring supported).
pub fn validate(monitors: &[PhysicalMonitor], layout: &DisplayLayout) -> (r: Vec<LayoutProblem>)
    ensures
        problems_view(r@) == validate_spec(
            monitors_view(monitors@),
            layout@,
            ValidationPolicy { global_scale_required: false, supports_mirroring: true },
        ),
{
    validate_with_policy(monitors, layout, ValidationPolicy::default())
}

/// Validates `layout` against a full compositor state (monitors and policy
/// flags).
pub fn validate_state(state: &DisplayState, layout: &DisplayLayout) -> (r: Vec<LayoutProblem>)
    ensures
        problems_view(r@) == validate_spec(monitors_view(state.monitors@), layout@, policy_of(*state)),
{
    validate_with_policy(state.monitors.as_slice(), layout, ValidationPolicy::from_state(state))
}

/// True when the problem list allows applying after auto-fixes.
pub fn is_appliable(problems: &[LayoutProblem]) -> (r: bool)
    ensures
        r == forall|k: int| 0 <= k < problems@.len() ==> auto_fixable(#[trigger] problems@[k]@),
{
    let mut k: usize = 0;
    while k < problems.len()
        invariant
            k <= problems@.len(),
            forall|t: int| 0 <= t < k ==> auto_fixable(#[trigger] problems@[t]@),
        decreases problems@.len() - k,
    {
        if !problems[k].is_auto_fixable() {
            return false;
        }
        k += 1;
    }
    true
}

/// Top-left corner of the resolved rectangles of a layout, `(0, 0)` when
/// none resolves.
pub open spec fn layout_origin(m: Seq<MonitorView>, l: LayoutView) -> (int, int) {
    let rs = rects_of(resolved_upto(m, l.displays, l.layout_mode, l.displays.len() as int));
    if rs.len() == 0 {
        (0, 0)
    } else {
        (min_x(rs), min_y(rs))
    }
}

/// A display moved by `(-dx, -dy)`.
pub open spec fn shifted_display(d: DisplayView, dx: int, dy: int) -> DisplayView {
    DisplayView { x: (d.x - dx) as i32, y: (d.y - dy) as i32, ..d }
}

/// Every display can be moved to the normalized position without leaving
/// the `i32` range.
pub open spec fn normalize_fits(m: Seq<MonitorView>, l: LayoutView) -> bool {
    let (ox, oy) = layout_origin(m, l);
    forall|i: int|
        0 <= i < l.displays.len() ==> fits_i32((#[trigger] l.displays[i]).x - ox) && fits_i32(
            l.displays[i].y - oy,
        )
}

/// The layout after `normalize`.
pub open spec fn normalized(m: Seq<MonitorView>, l: LayoutView) -> LayoutView {
    let (ox, oy) = layout_origin(m, l);
    LayoutView {
        layout_mode: l.layout_mode,
        displays: l.displays.map_values(|d: DisplayView| shifted_display(d, ox, oy)),
    }
}

/// Translates the whole layout so the top-left corner of its resolved
/// rectangles is `(0, 0)`; Mutter requires normalized configurations.
pub fn normalize(layout: &mut DisplayLayout, monitors: &[PhysicalMonitor])
    requires
        normalize_fits(monitors_view(monitors@), old(layout)@),
    ensures
        final(layout)@ == normalized(monitors_view(monitors@), old(layout)@),
{
    let ghost mv = monitors_view(monitors@);
    let ghost before = layout@;
    let (_idx, rects) = resolved_rects(monitors, layout);
    proof {
        lemma_rects_of(resolved_upto(mv, before.displays, before.layout_mode, before.displays.len() as int), rects@);
        if rects@.len() > 0 {
            lemma_extremes(rects@);
        }
    }
    let (bx, by) = match bounding_origin(rects.as_slice()) {
        Some(o) => o,
        None => (0i32, 0i32),
    };
    assert(layout_origin(mv, before) == (bx as int, by as int));
    let mut i: usize = 0;
    while i < layout.logical_displays.len()
        invariant
            i <= layout.logical_displays@.len(),
            layout.logical_displays@.len() == before.displays.len(),
            layout.layout_mode == before.layout_mode,
            before == old(layout)@,
            layout_origin(mv, before) == (bx as int, by as int),
            normalize_fits(mv, before),
            forall|j: int|
                0 <= j < before.displays.len() ==> #[trigger] displays_view(layout.logical_displays@)[j]
                    == if j < i {
                    shifted_display(before.displays[j], bx as int, by as int)
                } else {
                    before.displays[j]
                },
        decreases layout.logical_displays@.len() - i,
    {
        let ghost prev = layout.logical_displays@;
        assert(displays_view(prev)[i as int] == before.displays[i as int]);
        assert(fits_i32(before.displays[i as int].x - bx) && fits_i32(before.displays[i as int].y - by));
        let mut d = layout.logical_displays[i].clone();
        d.x = d.x - bx;
        d.y = d.y - by;
        layout.logical_displays.set(i, d);
        assert forall|j: int| 0 <= j < before.displays.len() implies #[trigger] displays_view(
            layout.logical_displays@,
        )[j] == if j < i + 1 {
            shifted_display(before.displays[j], bx as int, by as int)
        } else {
            before.displays[j]
        } by {
            if j != i {
                assert(layout.logical_displays@[j] == prev[j]);
                assert(displays_view(prev)[j] == prev[j]@);
            }
        }
        i += 1;
    }
    assert(layout@.displays =~= normalized(mv, before).displays);
}

/// The English message of a problem.
pub open spec fn problem_text(p: ProblemView) -> Seq<char> {
    match p {
        ProblemView::NoActiveDisplays => "The layout has no enabled display."@,
        ProblemView::MissingPrimary => "No display is marked as primary."@,
        ProblemView::MultiplePrimary => "More than one display is marked as primary."@,
        ProblemView::UnknownConnector { connector } => "Monitor "@ + connector
            + " is not currently connected."@,
        ProblemView::MonitorInMultipleGroups { connector } => "Monitor "@ + connector
            + " appears in more than one display group."@,
        ProblemView::UnknownMode { connector, mode_id } => "Monitor "@ + connector
            + " does not offer mode "@ + mode_id + "."@,
        ProblemView::MirrorResolutionMismatch { group, details } =>
            "The displays mirrored in group "@ + int_text(group as int)
            + " are set to different resolutions ("@ + details
            + "); mirrored displays must use the same resolution."@,
        ProblemView::EmptyGroup => "A mirror group has no monitors."@,
        ProblemView::UnsupportedScale { connector, mode_id, scale } => "Scale "@ + scale_text(
            scale as int,
        ) + " is not available for mode "@ + mode_id + " of monitor "@ + connector + "."@,
        ProblemView::InvalidScale { scale } => "Scale "@ + scale_text(scale as int) + " is not valid."@,
        ProblemView::Overlap { a, b } => "Displays "@ + int_text(a as int) + " and "@ + int_text(
            b as int,
        ) + " overlap."@,
        ProblemView::NotAdjacent =>
            "The displays are not all adjacent; every display must touch another one."@,
        ProblemView::NotNormalized { min_x, min_y } => "The layout origin is at ("@ + int_text(
            min_x as int,
        ) + ", "@ + int_text(min_y as int) + ") instead of (0, 0)."@,
        ProblemView::GlobalScaleMismatch { details } =>
            "All displays must use the same scale on this system ("@ + details
            + "); the compositor requires a global scale."@,
        ProblemView::FractionalScaleInPhysicalMode { scale } => "Scale "@ + scale_text(scale as int)
            + " is fractional, but the physical layout mode only allows whole-number scales."@,
        ProblemView::MirroringUnsupported => "This system does not support mirrored displays."@,
        ProblemView::MonitorForLease { connector } => "Monitor "@ + connector
            + " is reserved for lease (e.g. VR) and cannot be part of the layout."@,
        ProblemView::UnsupportedColorMode { connector } => "Monitor "@ + connector
            + " does not support the selected color mode."@,
    }
}

/// Appends a `usize` in decimal.
fn push_usize(out: &mut String, v: usize)
    ensures
        final(out)@ == old(out)@ + int_text(v as int),
{
    push_nat(out, v as u64);
}

impl LayoutProblem {
    /// Human-readable English message.
    pub fn message(&self) -> (r: String)
        ensures
            r@ == problem_text(self@),
    {
        let mut out = String::new();
        match self {
            LayoutProblem::NoActiveDisplays => push_str(&mut out, "The layout has no enabled display."),
            LayoutProblem::MissingPrimary => push_str(&mut out, "No display is marked as primary."),
            LayoutProblem::MultiplePrimary => push_str(
                &mut out,
                "More than one display is marked as primary.",
            ),
            LayoutProblem::UnknownConnector { connector } => {
                push_str(&mut out, "Monitor ");
                push_str(&mut out, connector.as_str());
                push_str(&mut out, " is not currently connected.");
            },
            LayoutProblem::MonitorInMultipleGroups { connector } => {
                push_str(&mut out, "Monitor ");
                push_str(&mut out, connector.as_str());
                push_str(&mut out, " appears in more than one display group.");
            },
            LayoutProblem::UnknownMode { connector, mode_id } => {
                push_str(&mut out, "Monitor ");
                push_str(&mut out, connector.as_str());
                push_str(&mut out, " does not offer mode ");
                push_str(&mut out, mode_id.as_str());
                push_str(&mut out, ".");
            },
            LayoutProblem::MirrorResolutionMismatch { group, details } => {
                push_str(&mut out, "The displays mirrored in group ");
                push_usize(&mut out, *group);
                push_str(&mut out, " are set to different resolutions (");
                push_str(&mut out, details.as_str());
                push_str(&mut out, "); mirrored displays must use the same resolution.");
            },
            LayoutProblem::EmptyGroup => push_str(&mut out, "A mirror group has no monitors."),
            LayoutProblem::UnsupportedScale { connector, mode_id, scale } => {
                push_str(&mut out, "Scale ");
                push_scale_text(&mut out, *scale);
                push_str(&mut out, " is not available for mode ");
                push_str(&mut out, mode_id.as_str());
                push_str(&mut out, " of monitor ");
                push_str(&mut out, connector.as_str());
                push_str(&mut out, ".");
            },
            LayoutProblem::InvalidScale { scale } => {
                push_str(&mut out, "Scale ");
                push_scale_text(&mut out, *scale);
                push_str(&mut out, " is not valid.");
            },
            LayoutProblem::Overlap { a, b } => {
                push_str(&mut out, "Displays ");
                push_usize(&mut out, *a);
                push_str(&mut out, " and ");
                push_usize(&mut out, *b);
                push_str(&mut out, " overlap.");
            },
            LayoutProblem::NotAdjacent => push_str(
                &mut out,
                "The displays are not all adjacent; every display must touch another one.",
            ),
            LayoutProblem::NotNormalized { min_x, min_y } => {
                push_str(&mut out, "The layout origin is at (");
                push_int(&mut out, *min_x as i64);
                push_str(&mut out, ", ");
                push_int(&mut out, *min_y as i64);
                push_str(&mut out, ") instead of (0, 0).");
            },
            LayoutProblem::GlobalScaleMismatch { details } => {
                push_str(&mut out, "All displays must use the same scale on this system (");
                push_str(&mut out, details.as_str());
                push_str(&mut out, "); the compositor requires a global scale.");
            },
            LayoutProblem::FractionalScaleInPhysicalMode { scale } => {
                push_str(&mut out, "Scale ");
                push_scale_text(&mut out, *scale);
                push_str(
                    &mut out,
                    " is fractional, but the physical layout mode only allows whole-number scales.",
                );
            },
            LayoutProblem::MirroringUnsupported => push_str(
                &mut out,
                "This system does not support mirrored displays.",
            ),
            LayoutProblem::MonitorForLease { connector } => {
                push_str(&mut out, "Monitor ");
                push_str(&mut out, connector.as_str());
                push_str(&mut out, " is reserved for lease (e.g. VR) and cannot be part of the layout.");
            },
            LayoutProblem::UnsupportedColorMode { connector } => {
                push_str(&mut out, "Monitor ");
                push_str(&mut out, connector.as_str());
                push_str(&mut out, " does not support the selected color mode.");
            },
        }
        assert(out@ =~= problem_text(self@));
        out
    }
}

/// Whether `normalize` can move every display without leaving the `i32`
/// range.
pub fn can_normalize(layout: &DisplayLayout, monitors: &[PhysicalMonitor]) -> (r: bool)
    ensures
        r == normalize_fits(monitors_view(monitors@), layout@),
{
    let ghost mv = monitors_view(monitors@);
    let (_idx, rects) = resolved_rects(monitors, layout);
    proof {
        lemma_rects_of(resolved_upto(mv, layout@.displays, layout.layout_mode, layout@.displays.len() as int), rects@);
        if rects@.len() > 0 {
            lemma_extremes(rects@);
        }
    }
    let (bx, by) = match bounding_origin(rects.as_slice()) {
        Some(o) => o,
        None => (0i32, 0i32),
    };
    assert(layout_origin(mv, layout@) == (bx as int, by as int));
    let mut i: usize = 0;
    while i < layout.logical_displays.len()
        invariant
            mv == monitors_view(monitors@),
            i <= layout@.displays.len(),
            layout_origin(mv, layout@) == (bx as int, by as int),
            forall|j: int|
                0 <= j < i ==> fits_i32((#[trigger] layout@.displays[j]).x - bx) && fits_i32(
                    layout@.displays[j].y - by,
                ),
        decreases layout@.displays.len() - i,
    {
        assert(layout@.displays[i as int] == layout.logical_displays@[i as int]@);
        let d = &layout.logical_displays[i];
        let nx = d.x as i64 - bx as i64;
        let ny = d.y as i64 - by as i64;
        if nx < i32::MIN as i64 || nx > i32::MAX as i64 || ny < i32::MIN as i64 || ny > i32::MAX as i64 {
            assert(!(fits_i32(layout@.displays[i as int].x - bx) && fits_i32(layout@.displays[i as int].y - by)));
            assert(!normalize_fits(mv, layout@));
            return false;
        }
        i += 1;
    }
    assert(normalize_fits(mv, layout@));
    true
}

} // verus!
