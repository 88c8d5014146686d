//! Higher-level layout edits: building, merging into and splitting from
//! mirror groups.
use vstd::prelude::*;
use crate::layout::{
    clone_assignments, displays_view, find_monitor, group_index, has_connector, monitors_view,
    primary_index, rect_of, AssignmentView, DisplayLayout, DisplayView, LayoutMode, LayoutView,
    LogicalDisplay, MonitorAssignment,
};
use crate::mirror::{
    candidates_view, mirror_candidates, mirror_error_text, mirror_spec, monitor_refs_view, CandidateView, MemberView,
    MirrorCandidate, MirrorError, MirrorErrorView, MirrorMemberMode,
};
use crate::mode::{scale_listed, ModeView};
use crate::monitor::{MonitorView, PhysicalMonitor};
use crate::seqs::first_where;
use crate::state::DisplayState;
use crate::text::push_str;
use crate::transform::Transform;
use crate::units::SCALE_EPS;
use crate::validation::{
    can_normalize, normalize, normalize_fits, normalized, problem_text, problems_view, layout_origin,
    shifted_display, count_primary,
    validate_spec, validate_state, auto_fixable, policy_of, LayoutProblem, ProblemView,
};

verus! {

/// Where the mirror group is placed relative to the remaining displays.
#[derive(Debug, Clone, Copy, PartialEq, Eq, Structural)]
pub enum Side {
    Left,
    Right,
    Above,
    Below,
}

#[derive(Debug, PartialEq)]
pub enum MirrorLayoutError {
    UnknownMonitor(String),
    Mirror(MirrorError),
    Unsizable,
    NoCommonScale,
    WouldBeInvalid(String),
}

pub ghost enum LayoutErrorView {
    UnknownMonitor(Seq<char>),
    Mirror(MirrorErrorView),
    Unsizable,
    NoCommonScale,
    WouldBeInvalid(Seq<char>),
}

impl View for MirrorLayoutError {
    type V = LayoutErrorView;

    open spec fn view(&self) -> LayoutErrorView {
        match self {
            MirrorLayoutError::UnknownMonitor(c) => LayoutErrorView::UnknownMonitor(c@),
            MirrorLayoutError::Mirror(e) => LayoutErrorView::Mirror(e@),
            MirrorLayoutError::Unsizable => LayoutErrorView::Unsizable,
            MirrorLayoutError::NoCommonScale => LayoutErrorView::NoCommonScale,
            MirrorLayoutError::WouldBeInvalid(m) => LayoutErrorView::WouldBeInvalid(m@),
        }
    }
}

impl MirrorLayoutError {
    /// Human-readable explanation.
    pub fn message(&self) -> (r: String)
        ensures
            r@ == match self@ {
                LayoutErrorView::UnknownMonitor(c) => "monitor "@ + c + " is not connected"@,
                LayoutErrorView::Mirror(e) => mirror_error_text(e),
                LayoutErrorView::Unsizable =>
                    "the mirror group and the remaining displays could not be sized"@,
                LayoutErrorView::NoCommonScale =>
                    "the selected displays share no common scale for the mirrored resolution"@,
                LayoutErrorView::WouldBeInvalid(m) => "the edit would produce an invalid layout: "@
                    + m,
            },
    {
        let mut out = String::new();
        match self {
            MirrorLayoutError::UnknownMonitor(c) => {
                push_str(&mut out, "monitor ");
                push_str(&mut out, c.as_str());
                push_str(&mut out, " is not connected");
            },
            MirrorLayoutError::Mirror(e) => {
                return e.message();
            },
            MirrorLayoutError::Unsizable => push_str(
                &mut out,
                "the mirror group and the remaining displays could not be sized",
            ),
            MirrorLayoutError::NoCommonScale => push_str(
                &mut out,
                "the selected displays share no common scale for the mirrored resolution",
            ),
            MirrorLayoutError::WouldBeInvalid(m) => {
                push_str(&mut out, "the edit would produce an invalid layout: ");
                push_str(&mut out, m.as_str());
            },
        }
        assert(out@ =~= match self@ {
            LayoutErrorView::UnknownMonitor(c) => "monitor "@ + c + " is not connected"@,
            LayoutErrorView::Mirror(_) => Seq::empty(),
            LayoutErrorView::Unsizable => "the mirror group and the remaining displays could not be sized"@,
            LayoutErrorView::NoCommonScale =>
                "the selected displays share no common scale for the mirrored resolution"@,
            LayoutErrorView::WouldBeInvalid(m) => "the edit would produce an invalid layout: "@ + m,
        });
        out
    }
}

// ---------------------------------------------------------------------
// Shared pieces.
// ---------------------------------------------------------------------

/// The assignment of a chosen mirror member, keeping the monitor's current
/// color mode, RGB range and underscanning setting.
pub open spec fn assignment_for(ms: Seq<MonitorView>, mm: MemberView) -> AssignmentView {
    match find_monitor(ms, mm.connector) {
        Some(i) => AssignmentView {
            connector: mm.connector,
            mode_id: mm.mode_id,
            color_mode: ms[i].color_mode,
            rgb_range: ms[i].rgb_range,
            underscanning: if ms[i].supports_underscanning {
                Some(ms[i].is_underscanning)
            } else {
                None
            },
        },
        None => AssignmentView {
            connector: mm.connector,
            mode_id: mm.mode_id,
            color_mode: None,
            rgb_range: None,
            underscanning: None,
        },
    }
}

/// Largest scale of `s` not above `limit`.
pub open spec fn largest_at_most(s: Seq<i64>, limit: int) -> Option<i64>
    decreases s.len(),
{
    if s.len() == 0 {
        None
    } else {
        let p = largest_at_most(s.drop_last(), limit);
        let x = s.last();
        if x <= limit {
            match p {
                None => Some(x),
                Some(a) => Some(if a >= x { a } else { x }),
            }
        } else {
            p
        }
    }
}

/// Scale `2.0` plus the tolerance, in millionths.
pub const SCALE_CAP: i64 = 2_000_100;

/// Scale used when the current one is not common: the largest common scale
/// up to 2, else the first common scale, else 1.
pub open spec fn fallback_scale(common: Seq<i64>) -> i64 {
    match largest_at_most(common, SCALE_CAP as int) {
        Some(s) => s,
        None => if common.len() > 0 {
            common[0]
        } else {
            1_000_000
        },
    }
}

/// Whether `s` is within `SCALE_EPS` of a listed scale.
fn listed(scales: &Vec<i64>, s: i64) -> (r: bool)
    ensures
        r == scale_listed(scales@, s as int),
{
    let mut i: usize = 0;
    while i < scales.len()
        invariant
            i <= scales@.len(),
            forall|j: int| 0 <= j < i ==> !crate::units::approx(#[trigger] scales@[j] as int, s as int, SCALE_EPS as int),
        decreases scales@.len() - i,
    {
        if crate::units::approx_eq(scales[i], s, SCALE_EPS) {
            return true;
        }
        i += 1;
    }
    false
}

fn fallback_scale_exec(common: &Vec<i64>) -> (r: i64)
    ensures
        r == fallback_scale(common@),
{
    let mut best: Option<i64> = None;
    let mut k: usize = 0;
    while k < common.len()
        invariant
            k <= common@.len(),
            best == largest_at_most(common@.take(k as int), SCALE_CAP as int),
        decreases common@.len() - k,
    {
        proof {
            assert(common@.take(k as int + 1).drop_last() =~= common@.take(k as int));
        }
        let x = common[k];
        if x <= SCALE_CAP {
            best = match best {
                None => Some(x),
                Some(a) => Some(if a >= x { a } else { x }),
            };
        }
        k += 1;
    }
    assert(common@.take(common@.len() as int) =~= common@);
    match best {
        Some(s) => s,
        None => if common.len() > 0 {
            common[0]
        } else {
            1_000_000
        },
    }
}

fn assignment_for_member(state: &DisplayState, mm: &MirrorMemberMode) -> (r: MonitorAssignment)
    ensures
        r@ == assignment_for(state.monitors_v(), mm@),
{
    match state.monitor(mm.connector.as_str()) {
        Some(m) => MonitorAssignment {
            connector: mm.connector.clone(),
            mode_id: mm.mode_id.clone(),
            color_mode: m.color_mode,
            rgb_range: m.rgb_range,
            underscanning: if m.supports_underscanning {
                Some(m.is_underscanning)
            } else {
                None
            },
        },
        None => MonitorAssignment {
            connector: mm.connector.clone(),
            mode_id: mm.mode_id.clone(),
            color_mode: None,
            rgb_range: None,
            underscanning: None,
        },
    }
}

/// Assignments of a candidate's members, in order.
pub open spec fn group_assignments(ms: Seq<MonitorView>, c: CandidateView) -> Seq<AssignmentView> {
    c.members.map_values(|mm: MemberView| assignment_for(ms, mm))
}

fn assignments_for(state: &DisplayState, c: &MirrorCandidate) -> (r: Vec<MonitorAssignment>)
    ensures
        crate::layout::assignments_view(r@) == group_assignments(state.monitors_v(), c@),
{
    let mut out: Vec<MonitorAssignment> = Vec::new();
    let mut k: usize = 0;
    while k < c.members.len()
        invariant
            k <= c.members@.len(),
            crate::layout::assignments_view(out@) == group_assignments(state.monitors_v(), c@).take(
                k as int,
            ),
        decreases c.members@.len() - k,
    {
        let a = assignment_for_member(state, &c.members[k]);
        assert(c@.members[k as int] == c.members@[k as int]@);
        let ghost before = out@;
        out.push(a);
        proof {
            let g = group_assignments(state.monitors_v(), c@);
            assert(g[k as int] == assignment_for(state.monitors_v(), c@.members[k as int]));
            assert(g.take(k as int + 1) =~= g.take(k as int).push(g[k as int]));
            assert(crate::layout::assignments_view(out@) =~= crate::layout::assignments_view(before).push(a@));
        }
        k += 1;
        assert(crate::layout::assignments_view(out@) =~= group_assignments(state.monitors_v(), c@).take(
            k as int,
        ));
    }
    assert(group_assignments(state.monitors_v(), c@).take(c.members@.len() as int) =~= group_assignments(
        state.monitors_v(),
        c@,
    ));
    out
}

/// Members without the assignments of `c`.
pub open spec fn without_connector(ms: Seq<AssignmentView>, c: Seq<char>) -> Seq<AssignmentView> {
    ms.filter(|a: AssignmentView| a.connector != c)
}

fn remove_connector(v: &Vec<MonitorAssignment>, c: &str) -> (r: Vec<MonitorAssignment>)
    ensures
        crate::layout::assignments_view(r@) == without_connector(crate::layout::assignments_view(v@), c@),
{
    let ghost vv = crate::layout::assignments_view(v@);
    let ghost pred = |a: AssignmentView| a.connector != c@;
    let mut out: Vec<MonitorAssignment> = Vec::new();
    let mut k: usize = 0;
    while k < v.len()
        invariant
            vv == crate::layout::assignments_view(v@),
            pred == (|a: AssignmentView| a.connector != c@),
            k <= v@.len(),
            crate::layout::assignments_view(out@) == vv.take(k as int).filter(pred),
        decreases v@.len() - k,
    {
        let a = &v[k];
        assert(vv[k as int] == a@);
        proof {
            reveal(Seq::filter);
            let t1 = vv.take(k as int + 1);
            assert(t1.drop_last() =~= vv.take(k as int));
            assert(t1.last() == a@);
        }
        let ghost before = out@;
        if !crate::identity::str_eq(a.connector.as_str(), c) {
            out.push(a.clone());
            assert(crate::layout::assignments_view(out@) =~= crate::layout::assignments_view(before).push(a@));
        }
        k += 1;
        assert(crate::layout::assignments_view(out@) =~= vv.take(k as int).filter(pred));
    }
    assert(vv.take(vv.len() as int) =~= vv);
    out
}

// ---------------------------------------------------------------------
// Splitting a member out of its group.
// ---------------------------------------------------------------------

/// The mode a monitor starts from on its own: its preferred mode, else its
/// first mode.
pub open spec fn native_mode(m: MonitorView) -> Option<ModeView> {
    match first_where(m.modes, |x: ModeView| x.is_preferred) {
        Some(i) => Some(m.modes[i]),
        None => if m.modes.len() > 0 {
            Some(m.modes[0])
        } else {
            None
        },
    }
}

/// Largest right edge of the resolved rectangles of the first `n`
/// displays, if any resolves.
pub open spec fn right_edge_upto(ms: Seq<MonitorView>, d: Seq<DisplayView>, mode: LayoutMode, n: int) -> Option<int>
    decreases n,
{
    if n <= 0 {
        None
    } else {
        let p = right_edge_upto(ms, d, mode, n - 1);
        match rect_of(ms, d[n - 1], mode) {
            Some(r) => match p {
                None => Some(r.right_int()),
                Some(a) => Some(if a >= r.right_int() { a } else { r.right_int() }),
            },
            None => p,
        }
    }
}

/// The layout `split_from_mirror` produces before normalizing, when the
/// member's group has at least two monitors.
pub open spec fn split_layout(ms: Seq<MonitorView>, l: LayoutView, member: Seq<char>) -> LayoutView {
    let gi = group_index(l.displays, member)->0;
    let g = l.displays[gi];
    let shrunk = l.displays.update(gi, DisplayView { monitors: without_connector(g.monitors, member), ..g });
    let mon = ms[find_monitor(ms, member)->0];
    let mode = native_mode(mon)->0;
    let edge = match right_edge_upto(ms, shrunk, l.layout_mode, shrunk.len() as int) {
        Some(e) => e,
        None => 0,
    };
    LayoutView {
        layout_mode: l.layout_mode,
        displays: shrunk.push(
            DisplayView {
                x: edge as i32,
                y: 0,
                scale: mode.preferred_scale,
                transform: Transform::Normal,
                primary: false,
                monitors: seq![
                    AssignmentView {
                        connector: member,
                        mode_id: mode.id,
                        color_mode: mon.color_mode,
                        rgb_range: mon.rgb_range,
                        underscanning: if mon.supports_underscanning {
                            Some(mon.is_underscanning)
                        } else {
                            None
                        },
                    },
                ],
            },
        ),
    }
}

/// What `split_from_mirror` does: the resulting layout, or the error.
pub open spec fn split_spec(ms: Seq<MonitorView>, l: LayoutView, member: Seq<char>) -> Result<LayoutView, LayoutErrorView> {
    match group_index(l.displays, member) {
        None => Err(LayoutErrorView::UnknownMonitor(member)),
        Some(gi) => if l.displays[gi].monitors.len() < 2 {
            Ok(l)
        } else {
            match find_monitor(ms, member) {
                None => Err(LayoutErrorView::UnknownMonitor(member)),
                Some(mi) => if native_mode(ms[mi]) is None {
                    Err(LayoutErrorView::Unsizable)
                } else {
                    let s = split_layout(ms, l, member);
                    let edge = right_edge_upto(ms, s.displays.drop_last(), l.layout_mode, s.displays.len() - 1);
                    if (edge matches Some(e) && !crate::geometry::fits_i32(e)) || !normalize_fits(ms, s) {
                        Err(LayoutErrorView::Unsizable)
                    } else {
                        Ok(normalized(ms, s))
                    }
                },
            }
        },
    }
}

/// Splitting a connector that no display holds is an error naming it; a
/// member of a single-monitor display changes nothing; a successful split
/// of a mirror group leaves the group without the member and adds one
/// display at the end holding just the member, not primary, untransformed,
/// in the member's preferred mode (else its first) at that mode's
/// preferred scale.
pub proof fn lemma_split_law(ms: Seq<MonitorView>, l: LayoutView, member: Seq<char>)
    ensures
        group_index(l.displays, member) is None ==> split_spec(ms, l, member) == Err::<LayoutView, LayoutErrorView>(
            LayoutErrorView::UnknownMonitor(member),
        ),
        group_index(l.displays, member) is Some && l.displays[group_index(l.displays, member)->0].monitors.len() < 2
            ==> split_spec(ms, l, member) == Ok::<LayoutView, LayoutErrorView>(l),
        ({
            let gi = group_index(l.displays, member)->0;
            group_index(l.displays, member) is Some && l.displays[gi].monitors.len() >= 2 ==> match split_spec(
            ms,
            l,
            member,
        ) {
            Ok(l2) => {
                &&& l2.displays.len() == l.displays.len() + 1
                &&& l2.displays[gi].monitors == without_connector(l.displays[gi].monitors, member)
                &&& l2.displays.last().monitors.len() == 1
                &&& l2.displays.last().monitors[0].connector == member
                &&& !l2.displays.last().primary
                &&& find_monitor(ms, member) is Some
                &&& native_mode(ms[find_monitor(ms, member)->0]) is Some
                &&& l2.displays.last().monitors[0].mode_id == native_mode(ms[find_monitor(ms, member)->0])->0.id
                &&& l2.displays.last().scale == native_mode(ms[find_monitor(ms, member)->0])->0.preferred_scale
                &&& l2.displays.last().transform == Transform::Normal
            },
            Err(_) => true,
        }
        }),
{
    if let Some(gi) = group_index(l.displays, member) {
        if l.displays[gi].monitors.len() >= 2 {
            if let Ok(l2) = split_spec(ms, l, member) {
                let s = split_layout(ms, l, member);
                assert(l2 == normalized(ms, s));
                let (ox, oy) = layout_origin(ms, s);
                assert(l2.displays[gi] == shifted_display(s.displays[gi], ox, oy));
                assert(l2.displays.last() == shifted_display(s.displays.last(), ox, oy));
            }
        }
    }
}

fn right_edge_exec(monitors: &[PhysicalMonitor], displays: &Vec<LogicalDisplay>, mode: LayoutMode) -> (r: Option<i64>)
    ensures
        r == match right_edge_upto(monitors_view(monitors@), displays_view(displays@), mode, displays@.len() as int) {
            Some(e) => Some(e as i64),
            None => None,
        },
        right_edge_upto(monitors_view(monitors@), displays_view(displays@), mode, displays@.len() as int) matches Some(e)
            ==> i32::MIN + i32::MIN <= e <= i32::MAX + i32::MAX,
{
    let ghost mv = monitors_view(monitors@);
    let ghost dv = displays_view(displays@);
    let mut best: Option<i64> = None;
    let mut k: usize = 0;
    while k < displays.len()
        invariant
            mv == monitors_view(monitors@),
            dv == displays_view(displays@),
            k <= dv.len(),
            best == match right_edge_upto(mv, dv, mode, k as int) {
                Some(e) => Some(e as i64),
                None => None,
            },
            right_edge_upto(mv, dv, mode, k as int) matches Some(e) ==> i32::MIN + i32::MIN <= e <= i32::MAX
                + i32::MAX,
        decreases dv.len() - k,
    {
        assert(dv[k as int] == displays@[k as int]@);
        match displays[k].rect(monitors, mode) {
            Some(r) => {
                let right = r.x as i64 + r.width as i64;
                best = match best {
                    None => Some(right),
                    Some(a) => Some(if a >= right { a } else { right }),
                };
            },
            None => {},
        }
        k += 1;
    }
    best
}

/// Splits `member_connector` out of its mirror group into its own logical
/// display placed at the right edge, at its preferred mode and scale. A
/// group of one is left alone. On error the layout is unchanged.
pub fn split_from_mirror(state: &DisplayState, layout: &mut DisplayLayout, member_connector: &str) -> (r: Result<(), MirrorLayoutError>)
    ensures
        match (r, split_spec(state.monitors_v(), old(layout)@, member_connector@)) {
            (Ok(_), Ok(l)) => final(layout)@ == l,
            (Err(e), Err(v)) => e@ == v && final(layout)@ == old(layout)@,
            _ => false,
        },
{
    let ghost ms = state.monitors_v();
    let ghost l0 = layout@;
    let index = match layout.group_index_of(member_connector) {
        None => {
            return Err(MirrorLayoutError::UnknownMonitor(member_connector.to_owned()));
        },
        Some(i) => i,
    };
    assert(layout@.displays[index as int] == layout.logical_displays@[index as int]@);
    if layout.logical_displays[index].monitors.len() < 2 {
        return Ok(());
    }
    let monitor = match state.monitor(member_connector) {
        None => {
            return Err(MirrorLayoutError::UnknownMonitor(member_connector.to_owned()));
        },
        Some(m) => m,
    };
    let native: &crate::mode::MonitorMode = match monitor.preferred_mode() {
        Some(m) => m,
        None => {
            if monitor.modes.len() > 0 {
                assert(monitor@.modes[0] == monitor.modes@[0]@);
                &monitor.modes[0]
            } else {
                return Err(MirrorLayoutError::Unsizable);
            }
        },
    };
    assert(native_mode(monitor@) == Some(native@));
    let mut work = layout.clone();
    let g = &layout.logical_displays[index];
    let shrunk = LogicalDisplay {
        x: g.x,
        y: g.y,
        scale: g.scale,
        transform: g.transform,
        primary: g.primary,
        monitors: remove_connector(&g.monitors, member_connector),
    };
    work.logical_displays.set(index, shrunk);
    let ghost shrunk_v = work@.displays;
    assert(shrunk_v =~= l0.displays.update(
        index as int,
        DisplayView { monitors: without_connector(l0.displays[index as int].monitors, member_connector@), ..l0.displays[index as int] },
    ));
    let edge = right_edge_exec(state.monitors.as_slice(), &work.logical_displays, work.layout_mode);
    let x: i32 = match edge {
        Some(e) => {
            if e < i32::MIN as i64 || e > i32::MAX as i64 {
                proof {
                    assert(group_index(l0.displays, member_connector@) == Some(index as int));
                    let s = split_layout(ms, l0, member_connector@);
                    assert(s.displays.drop_last() =~= shrunk_v);
                }
                return Err(MirrorLayoutError::Unsizable);
            }
            e as i32
        },
        None => 0,
    };
    let assignment = vec![MonitorAssignment {
        connector: member_connector.to_owned(),
        mode_id: native.id.clone(),
        color_mode: monitor.color_mode,
        rgb_range: monitor.rgb_range,
        underscanning: if monitor.supports_underscanning {
            Some(monitor.is_underscanning)
        } else {
            None
        },
    }];
    work.logical_displays.push(
        LogicalDisplay {
            x,
            y: 0,
            scale: native.preferred_scale,
            transform: Transform::Normal,
            primary: false,
            monitors: assignment,
        },
    );
    proof {
        let s = split_layout(ms, l0, member_connector@);
        assert(group_index(l0.displays, member_connector@) == Some(index as int));
        assert(work@.displays.drop_last() =~= shrunk_v);
        assert(s.displays.drop_last() =~= shrunk_v);
        let wl = work@.displays.last();
        let sl = s.displays.last();
        assert(wl.x == sl.x);
        assert(wl.scale == sl.scale);
        assert(wl.monitors[0].connector == sl.monitors[0].connector);
        assert(wl.monitors[0] == sl.monitors[0]);
        assert(wl.monitors =~= sl.monitors);
        assert(work@.displays.last() == s.displays.last());
        assert(work@.displays =~= s.displays);
        assert(work@ == s);
    }
    if !can_normalize(&work, state.monitors.as_slice()) {
        return Err(MirrorLayoutError::Unsizable);
    }
    normalize(&mut work, state.monitors.as_slice());
    *layout = work;
    Ok(())
}

// ---------------------------------------------------------------------
// Merging a monitor into a group.
// ---------------------------------------------------------------------

/// Connectors of the group containing `anchor`, plus `joining` when it is
/// not among them yet.
pub open spec fn merge_connectors(l: LayoutView, anchor: Seq<char>, joining: Seq<char>) -> Seq<Seq<char>> {
    let g = l.displays[group_index(l.displays, anchor)->0];
    let cs = g.monitors.map_values(|a: AssignmentView| a.connector);
    if cs.contains(joining) {
        cs
    } else {
        cs.push(joining)
    }
}

/// Position of the first connector without a connected monitor.
pub open spec fn first_missing(ms: Seq<MonitorView>, cs: Seq<Seq<char>>) -> Option<int> {
    first_where(cs, |c: Seq<char>| find_monitor(ms, c) is None)
}

/// The monitors on the given connectors.
pub open spec fn lookup_monitors(ms: Seq<MonitorView>, cs: Seq<Seq<char>>) -> Seq<MonitorView> {
    cs.map_values(|c: Seq<char>| ms[find_monitor(ms, c)->0])
}

/// A display without the assignment of connector `c`.
pub open spec fn strip_one(x: DisplayView, c: Seq<char>) -> DisplayView {
    DisplayView { monitors: without_connector(x.monitors, c), ..x }
}

/// Displays without connector `c`; displays left empty are dropped.
pub open spec fn strip_member(d: Seq<DisplayView>, c: Seq<char>) -> Seq<DisplayView> {
    d.map_values(|x: DisplayView| strip_one(x, c)).filter(|x: DisplayView| x.monitors.len() > 0)
}

/// The edited layout before normalizing, when the anchor's group survives
/// the removal of the joining monitor.
pub open spec fn merged_layout(
    ms: Seq<MonitorView>,
    l: LayoutView,
    anchor: Seq<char>,
    joining: Seq<char>,
    cand: CandidateView,
) -> Option<LayoutView> {
    let d1 = strip_member(l.displays, joining);
    match group_index(d1, anchor) {
        None => None,
        Some(t) => {
            let tg = d1[t];
            let scale = if scale_listed(cand.common_scales, tg.scale as int) {
                tg.scale
            } else {
                fallback_scale(cand.common_scales)
            };
            let d2 = d1.update(t, DisplayView { monitors: group_assignments(ms, cand), scale, ..tg });
            let d3 = if primary_index(d2) is None {
                match group_index(d2, anchor) {
                    Some(t2) => d2.update(t2, DisplayView { primary: true, ..d2[t2] }),
                    None => d2,
                }
            } else {
                d2
            };
            Some(LayoutView { layout_mode: l.layout_mode, displays: d3 })
        },
    }
}

/// `parts` joined with single spaces.
pub open spec fn join_space(parts: Seq<Seq<char>>) -> Seq<char>
    decreases parts.len(),
{
    if parts.len() == 0 {
        Seq::empty()
    } else if parts.len() == 1 {
        parts[0]
    } else {
        join_space(parts.drop_last()) + " "@ + parts.last()
    }
}

/// The problems that normalizing cannot fix.
pub open spec fn fatal_problems(p: Seq<ProblemView>) -> Seq<ProblemView> {
    p.filter(|q: ProblemView| !auto_fixable(q))
}

/// What `merge_into_mirror` does: the committed layout, or the error.
pub open spec fn merge_spec(
    ms: Seq<MonitorView>,
    l: LayoutView,
    anchor: Seq<char>,
    joining: Seq<char>,
    policy: crate::validation::ValidationPolicy,
) -> Result<LayoutView, LayoutErrorView> {
    match group_index(l.displays, anchor) {
        None => Err(LayoutErrorView::UnknownMonitor(anchor)),
        Some(_) => {
            let cs = merge_connectors(l, anchor, joining);
            match first_missing(ms, cs) {
                Some(k) => Err(LayoutErrorView::UnknownMonitor(cs[k])),
                None => match mirror_spec(lookup_monitors(ms, cs)) {
                    Err(e) => Err(LayoutErrorView::Mirror(e)),
                    Ok(cands) => if cands.len() == 0 {
                        Err(LayoutErrorView::Unsizable)
                    } else if cands[0].common_scales.len() == 0 {
                        Err(LayoutErrorView::NoCommonScale)
                    } else {
                        match merged_layout(ms, l, anchor, joining, cands[0]) {
                            None => Err(LayoutErrorView::UnknownMonitor(anchor)),
                            Some(w) => if !normalize_fits(ms, w) {
                                Err(LayoutErrorView::Unsizable)
                            } else {
                                let n = normalized(ms, w);
                                let fatal = fatal_problems(validate_spec(ms, n, policy));
                                if fatal.len() > 0 {
                                    Err(
                                        LayoutErrorView::WouldBeInvalid(
                                            join_space(fatal.map_values(|q: ProblemView| problem_text(q))),
                                        ),
                                    )
                                } else {
                                    Ok(n)
                                }
                            },
                        }
                    },
                },
            }
        },
    }
}

fn connectors_of_group(layout: &DisplayLayout, gi: usize, joining: &str) -> (r: Vec<String>)
    requires
        gi < layout@.displays.len(),
    ensures
        ({
            let g = layout@.displays[gi as int];
            let cs = g.monitors.map_values(|a: AssignmentView| a.connector);
            r@.map_values(|s: String| s@) == if cs.contains(joining@) {
                cs
            } else {
                cs.push(joining@)
            }
        }),
{
    let g = &layout.logical_displays[gi];
    assert(layout@.displays[gi as int] == g@);
    let ghost cs = g@.monitors.map_values(|a: AssignmentView| a.connector);
    let mut out: Vec<String> = Vec::new();
    let mut present = false;
    let mut k: usize = 0;
    while k < g.monitors.len()
        invariant
            gi < layout@.displays.len(),
            g@ == layout@.displays[gi as int],
            cs == g@.monitors.map_values(|a: AssignmentView| a.connector),
            k <= g.monitors@.len(),
            out@.map_values(|s: String| s@) == cs.take(k as int),
            present == cs.take(k as int).contains(joining@),
        decreases g.monitors@.len() - k,
    {
        let c = &g.monitors[k];
        assert(g@.monitors[k as int] == c@);
        assert(cs.take(k as int + 1) =~= cs.take(k as int).push(c.connector@));
        let eq = crate::identity::str_eq(c.connector.as_str(), joining);
        proof {
            let t0 = cs.take(k as int);
            let t1 = cs.take(k as int + 1);
            if t1.contains(joining@) {
                let w = choose|w: int| 0 <= w < t1.len() && t1[w] == joining@;
                if w < k {
                    assert(t0[w] == t1[w]);
                }
            }
            if t0.contains(joining@) {
                let w = choose|w: int| 0 <= w < t0.len() && t0[w] == joining@;
                assert(t1[w] == t0[w]);
            }
            if eq {
                assert(t1[k as int] == joining@);
            }
            assert(t1.contains(joining@) == (t0.contains(joining@) || eq));
        }
        if eq {
            present = true;
        }
        let ghost before = out@;
        out.push(c.connector.clone());
        assert(out@.map_values(|s: String| s@) =~= before.map_values(|s: String| s@).push(c.connector@));
        k += 1;
    }
    assert(cs.take(cs.len() as int) =~= cs);
    if !present {
        let ghost before = out@;
        out.push(joining.to_owned());
        assert(out@.map_values(|s: String| s@) =~= before.map_values(|s: String| s@).push(joining@));
    }
    out
}

/// The monitors on `cs`, or the first connector without one.
fn lookup_exec<'a>(state: &'a DisplayState, cs: &[String]) -> (r: Result<Vec<&'a PhysicalMonitor>, usize>)
    ensures
        ({
            let csv = cs@.map_values(|s: String| s@);
            match first_missing(state.monitors_v(), csv) {
                Some(k) => r == Err::<Vec<&PhysicalMonitor>, usize>(k as usize),
                None => r is Ok && monitor_refs_view(r->Ok_0@) == lookup_monitors(state.monitors_v(), csv),
            }
        }),
{
    let ghost csv = cs@.map_values(|s: String| s@);
    let ghost ms = state.monitors_v();
    let mut out: Vec<&PhysicalMonitor> = Vec::new();
    let mut k: usize = 0;
    while k < cs.len()
        invariant
            csv == cs@.map_values(|s: String| s@),
            ms == state.monitors_v(),
            k <= cs@.len(),
            forall|j: int| 0 <= j < k ==> find_monitor(ms, #[trigger] csv[j]) is Some,
            monitor_refs_view(out@) == lookup_monitors(ms, csv).take(k as int),
        decreases cs@.len() - k,
    {
        assert(csv[k as int] == cs@[k as int]@);
        match state.monitor(cs[k].as_str()) {
            None => {
                proof {
                    crate::seqs::lemma_first_where_at(csv, |c: Seq<char>| find_monitor(ms, c) is None, k as int);
                }
                return Err(k);
            },
            Some(m) => {
                let ghost before = out@;
                out.push(m);
                proof {
                    let lm = lookup_monitors(ms, csv);
                    assert(lm[k as int] == ms[find_monitor(ms, csv[k as int])->0]);
                    assert(m@ == lm[k as int]);
                    assert(lm.take(k as int + 1) =~= lm.take(k as int).push(lm[k as int]));
                    assert(monitor_refs_view(out@) =~= monitor_refs_view(before).push(m@));
                }
            },
        }
        k += 1;
    }
    proof {
        crate::seqs::lemma_first_where_none(csv, |c: Seq<char>| find_monitor(ms, c) is None);
        assert(lookup_monitors(ms, csv).take(csv.len() as int) =~= lookup_monitors(ms, csv));
    }
    Ok(out)
}

fn strip_member_exec(layout: &DisplayLayout, c: &str) -> (r: Vec<LogicalDisplay>)
    ensures
        displays_view(r@) == strip_member(layout@.displays, c@),
{
    let ghost d = layout@.displays;
    let ghost mapped = d.map_values(|x: DisplayView| strip_one(x, c@));
    let ghost pred = |x: DisplayView| x.monitors.len() > 0;
    let mut out: Vec<LogicalDisplay> = Vec::new();
    let mut k: usize = 0;
    while k < layout.logical_displays.len()
        invariant
            d == layout@.displays,
            mapped == d.map_values(|x: DisplayView| strip_one(x, c@)),
            pred == (|x: DisplayView| x.monitors.len() > 0),
            k <= d.len(),
            displays_view(out@) == mapped.take(k as int).filter(pred),
        decreases d.len() - k,
    {
        let g = &layout.logical_displays[k];
        assert(d[k as int] == g@);
        let nd = LogicalDisplay {
            x: g.x,
            y: g.y,
            scale: g.scale,
            transform: g.transform,
            primary: g.primary,
            monitors: remove_connector(&g.monitors, c),
        };
        assert(nd@ == mapped[k as int]);
        proof {
            reveal(Seq::filter);
            let t1 = mapped.take(k as int + 1);
            assert(t1.drop_last() =~= mapped.take(k as int));
            assert(t1.last() == nd@);
        }
        let ghost before = out@;
        if nd.monitors.len() > 0 {
            out.push(nd);
            assert(displays_view(out@) =~= displays_view(before).push(mapped[k as int]));
        }
        k += 1;
        assert(displays_view(out@) =~= mapped.take(k as int).filter(pred));
    }
    assert(mapped.take(d.len() as int) =~= mapped);
    out
}

/// Index of the first display in `ds` containing `connector`.
fn group_index_in(ds: &Vec<LogicalDisplay>, connector: &str) -> (r: Option<usize>)
    ensures
        r is None ==> group_index(displays_view(ds@), connector@) is None,
        r matches Some(k) ==> group_index(displays_view(ds@), connector@) == Some(k as int) && k < ds@.len(),
{
    let ghost dv = displays_view(ds@);
    let mut i: usize = 0;
    while i < ds.len()
        invariant
            dv == displays_view(ds@),
            i <= ds@.len(),
            forall|j: int| 0 <= j < i ==> !has_connector((#[trigger] dv[j]).monitors, connector@),
        decreases ds@.len() - i,
    {
        assert(dv[i as int] == ds@[i as int]@);
        if ds[i].contains_connector(connector) {
            proof {
                crate::seqs::lemma_first_where_at(dv, |d: DisplayView| has_connector(d.monitors, connector@), i as int);
            }
            return Some(i);
        }
        i += 1;
    }
    proof {
        crate::seqs::lemma_first_where_none(dv, |d: DisplayView| has_connector(d.monitors, connector@));
    }
    None
}

/// Index of the first primary display in `ds`.
fn primary_in(ds: &Vec<LogicalDisplay>) -> (r: Option<usize>)
    ensures
        r is None ==> primary_index(displays_view(ds@)) is None,
        r matches Some(k) ==> primary_index(displays_view(ds@)) == Some(k as int) && k < ds@.len(),
{
    let ghost dv = displays_view(ds@);
    let mut i: usize = 0;
    while i < ds.len()
        invariant
            dv == displays_view(ds@),
            i <= ds@.len(),
            forall|j: int| 0 <= j < i ==> !(#[trigger] dv[j]).primary,
        decreases ds@.len() - i,
    {
        assert(dv[i as int] == ds@[i as int]@);
        if ds[i].primary {
            proof {
                crate::seqs::lemma_first_where_at(dv, |d: DisplayView| d.primary, i as int);
            }
            return Some(i);
        }
        i += 1;
    }
    proof {
        crate::seqs::lemma_first_where_none(dv, |d: DisplayView| d.primary);
    }
    None
}

proof fn lemma_join_space_step(parts: Seq<Seq<char>>, x: Seq<char>)
    ensures
        parts.len() == 0 ==> join_space(parts.push(x)) == x,
        parts.len() > 0 ==> join_space(parts.push(x)) == join_space(parts) + " "@ + x,
{
    assert(parts.push(x).drop_last() =~= parts);
}

/// The messages of the problems that normalizing cannot fix, joined with
/// spaces; empty when there are none.
fn fatal_text(problems: &Vec<LayoutProblem>) -> (r: (bool, String))
    ensures
        r.0 == (fatal_problems(problems_view(problems@)).len() > 0),
        r.1@ == join_space(fatal_problems(problems_view(problems@)).map_values(|q: ProblemView| problem_text(q))),
{
    let ghost pv = problems_view(problems@);
    let ghost pred = |q: ProblemView| !auto_fixable(q);
    let mut any = false;
    let mut out = String::new();
    let mut k: usize = 0;
    while k < problems.len()
        invariant
            pv == problems_view(problems@),
            pred == (|q: ProblemView| !auto_fixable(q)),
            k <= pv.len(),
            any == (pv.take(k as int).filter(pred).len() > 0),
            out@ == join_space(pv.take(k as int).filter(pred).map_values(|q: ProblemView| problem_text(q))),
        decreases pv.len() - k,
    {
        let p = &problems[k];
        assert(pv[k as int] == p@);
        let ghost prev = pv.take(k as int).filter(pred);
        proof {
            reveal(Seq::filter);
            let t1 = pv.take(k as int + 1);
            assert(t1.drop_last() =~= pv.take(k as int));
            assert(t1.last() == p@);
        }
        if !p.is_auto_fixable() {
            proof {
                lemma_join_space_step(prev.map_values(|q: ProblemView| problem_text(q)), problem_text(p@));
                assert(prev.push(p@).map_values(|q: ProblemView| problem_text(q)) =~= prev.map_values(
                    |q: ProblemView| problem_text(q),
                ).push(problem_text(p@)));
                reveal_strlit(" ");
            }
            if any {
                push_str(&mut out, " ");
            }
            let m = p.message();
            push_str(&mut out, m.as_str());
            any = true;
        }
        k += 1;
    }
    assert(pv.take(pv.len() as int) =~= pv);
    (any, out)
}

/// The edited layout before normalizing.
fn merge_edit(
    state: &DisplayState,
    layout: &DisplayLayout,
    anchor_connector: &str,
    joining_connector: &str,
    candidate: &MirrorCandidate,
) -> (r: Option<DisplayLayout>)
    ensures
        match merged_layout(state.monitors_v(), layout@, anchor_connector@, joining_connector@, candidate@) {
            None => r is None,
            Some(w) => r is Some && r->0@ == w,
        },
{
    let ghost ms = state.monitors_v();
    let mut displays = strip_member_exec(layout, joining_connector);
    let ghost d1 = displays_view(displays@);
    let t = match group_index_in(&displays, anchor_connector) {
        None => {
            return None;
        },
        Some(t) => t,
    };
    assert(group_index(d1, anchor_connector@) == Some(t as int));
    let tg = &displays[t];
    assert(d1[t as int] == tg@);
    let scale = if listed(&candidate.common_scales, tg.scale) {
        tg.scale
    } else {
        fallback_scale_exec(&candidate.common_scales)
    };
    let nt = LogicalDisplay {
        x: tg.x,
        y: tg.y,
        scale,
        transform: tg.transform,
        primary: tg.primary,
        monitors: assignments_for(state, candidate),
    };
    displays.set(t, nt);
    let ghost d2 = displays_view(displays@);
    assert(d2 =~= d1.update(
        t as int,
        DisplayView { monitors: group_assignments(ms, candidate@), scale, ..d1[t as int] },
    ));
    let ghost d3 = if primary_index(d2) is None {
        match group_index(d2, anchor_connector@) {
            Some(t2) => d2.update(t2, DisplayView { primary: true, ..d2[t2] }),
            None => d2,
        }
    } else {
        d2
    };
    if primary_in(&displays).is_none() {
        match group_index_in(&displays, anchor_connector) {
            Some(t2) => {
                let mut g2 = displays[t2].clone();
                assert(g2@ == d2[t2 as int]);
                g2.primary = true;
                displays.set(t2, g2);
                assert(displays_view(displays@) =~= d2.update(t2 as int, DisplayView { primary: true, ..d2[t2 as int] }));
            },
            None => {},
        }
    }
    assert(displays_view(displays@) == d3);
    proof {
        let l = layout@;
        let dd1 = strip_member(l.displays, joining_connector@);
        assert(dd1 == d1);
        assert(group_index(dd1, anchor_connector@) == Some(t as int));
        let tg0 = dd1[t as int];
        let sc = if scale_listed(candidate@.common_scales, tg0.scale as int) {
            tg0.scale
        } else {
            fallback_scale(candidate@.common_scales)
        };
        assert(sc == scale);
        let dd2 = dd1.update(t as int, DisplayView { monitors: group_assignments(ms, candidate@), scale: sc, ..tg0 });
        assert(dd2 == d2);
    }
    let work = DisplayLayout { layout_mode: layout.layout_mode, logical_displays: displays };
    Some(work)
}

/// Merges `joining_connector`'s monitor into the mirror group (or single
/// display) containing `anchor_connector`, at the best common resolution;
/// each member keeps its color and RGB settings. The edit is
/// transactional: it is validated completely and only committed when no
/// problem remains that normalizing cannot fix; on any error the layout is
/// unchanged.
pub fn merge_into_mirror(
    state: &DisplayState,
    layout: &mut DisplayLayout,
    anchor_connector: &str,
    joining_connector: &str,
) -> (r: Result<(), MirrorLayoutError>)
    ensures
        match (
            r,
            merge_spec(state.monitors_v(), old(layout)@, anchor_connector@, joining_connector@, policy_of(*state)),
        ) {
            (Ok(_), Ok(l)) => final(layout)@ == l,
            (Err(e), Err(v)) => e@ == v && final(layout)@ == old(layout)@,
            _ => false,
        },
{
    let ghost ms = state.monitors_v();
    let ghost l0 = layout@;
    let gi = match layout.group_index_of(anchor_connector) {
        None => {
            return Err(MirrorLayoutError::UnknownMonitor(anchor_connector.to_owned()));
        },
        Some(i) => i,
    };
    let connectors = connectors_of_group(layout, gi, joining_connector);
    let ghost csv = connectors@.map_values(|s: String| s@);
    assert(csv == merge_connectors(l0, anchor_connector@, joining_connector@));
    let members = match lookup_exec(state, connectors.as_slice()) {
        Err(k) => {
            assert(csv[k as int] == connectors@[k as int]@);
            return Err(MirrorLayoutError::UnknownMonitor(connectors[k].clone()));
        },
        Ok(m) => m,
    };
    let candidates = match mirror_candidates(members.as_slice()) {
        Err(e) => {
            return Err(MirrorLayoutError::Mirror(e));
        },
        Ok(c) => c,
    };
    if candidates.len() == 0 {
        return Err(MirrorLayoutError::Unsizable);
    }
    let candidate = &candidates[0];
    assert(candidates_view(candidates@)[0] == candidate@);
    if candidate.common_scales.len() == 0 {
        return Err(MirrorLayoutError::NoCommonScale);
    }
    let mut work = match merge_edit(state, layout, anchor_connector, joining_connector, candidate) {
        None => {
            return Err(MirrorLayoutError::UnknownMonitor(anchor_connector.to_owned()));
        },
        Some(w) => w,
    };
    if !can_normalize(&work, state.monitors.as_slice()) {
        return Err(MirrorLayoutError::Unsizable);
    }
    normalize(&mut work, state.monitors.as_slice());
    let problems = validate_state(state, &work);
    let (any, text) = fatal_text(&problems);
    if any {
        return Err(MirrorLayoutError::WouldBeInvalid(text));
    }
    *layout = work;
    Ok(())
}

/// A merge commits only layouts that validate cleanly up to automatic
/// fixes, and those it commits have their origin normalized, so they
/// validate without any problem.
pub proof fn lemma_merge_commits_valid(
    ms: Seq<MonitorView>,
    l: LayoutView,
    anchor: Seq<char>,
    joining: Seq<char>,
    policy: crate::validation::ValidationPolicy,
)
    ensures
        merge_spec(ms, l, anchor, joining, policy) matches Ok(n) ==> {
            &&& forall|k: int|
                0 <= k < validate_spec(ms, n, policy).len() ==> auto_fixable(
                    #[trigger] validate_spec(ms, n, policy)[k],
                )
            &&& crate::normalization::origin_report(ms, n) == Seq::<ProblemView>::empty()
            &&& validate_spec(ms, n, policy) == Seq::<ProblemView>::empty()
        },
{
    if let Ok(n) = merge_spec(ms, l, anchor, joining, policy) {
        let cs = merge_connectors(l, anchor, joining);
        let cands = mirror_spec(lookup_monitors(ms, cs))->Ok_0;
        let w = merged_layout(ms, l, anchor, joining, cands[0])->0;
        assert(n == normalized(ms, w));
        let p = validate_spec(ms, n, policy);
        let pred = |q: ProblemView| !auto_fixable(q);
        broadcast use vstd::seq_lib::group_filter_ensures;

        assert forall|k: int| 0 <= k < p.len() implies auto_fixable(#[trigger] p[k]) by {
            if !auto_fixable(p[k]) {
                assert(pred(p[k]));
                assert(p.filter(pred).contains(p[k]));
            }
        }
        crate::normalization::lemma_normalize_fixes_origin(ms, w, policy);
        if n.displays.len() > 0 {
            crate::validation_laws::lemma_not_normalized_only_from_origin(ms, n, policy);
            if p.len() > 0 {
                assert(auto_fixable(p[0]));
            }
        } else {
            assert(p[0] == ProblemView::NoActiveDisplays);
        }
    }
}

// ---------------------------------------------------------------------
// Building a partial-mirror layout.
// ---------------------------------------------------------------------

/// Scale of the new group: the current scale of the first member's display
/// when the chosen modes all support it, else the preferred scale of the
/// first member's chosen mode when supported, else the fallback.
pub open spec fn build_scale(current: Option<i64>, preferred: Option<i64>, common: Seq<i64>) -> i64 {
    if current matches Some(c) && scale_listed(common, c as int) {
        current->0
    } else if preferred matches Some(p) && scale_listed(common, p as int) {
        preferred->0
    } else {
        fallback_scale(common)
    }
}

/// The display holds one of the `members`.
pub open spec fn touches_members(d: DisplayView, members: Seq<Seq<char>>) -> bool {
    exists|j: int| 0 <= j < d.monitors.len() && members.contains(#[trigger] d.monitors[j].connector)
}

/// Displays holding none of the `members`.
pub open spec fn rest_of(d: Seq<DisplayView>, members: Seq<Seq<char>>) -> Seq<DisplayView> {
    d.filter(|x: DisplayView| !touches_members(x, members))
}

/// `p` stays before `x` in a stable sort by `(x, y)`.
pub open spec fn pos_le(p: DisplayView, x: DisplayView) -> bool {
    p.x < x.x || (p.x == x.x && p.y <= x.y)
}

pub open spec fn count_pos_le(prev: Seq<DisplayView>, x: DisplayView) -> nat
    decreases prev.len(),
{
    if prev.len() == 0 {
        0
    } else {
        count_pos_le(prev.drop_last(), x) + if pos_le(prev.last(), x) {
            1nat
        } else {
            0nat
        }
    }
}

/// Stable sort by position, left to right then top to bottom.
pub open spec fn sort_by_position(s: Seq<DisplayView>) -> Seq<DisplayView>
    decreases s.len(),
{
    if s.len() == 0 {
        s
    } else {
        let prev = sort_by_position(s.drop_last());
        prev.insert(count_pos_le(prev, s.last()) as int, s.last())
    }
}

/// The remaining displays packed into one row from `x = 0`: the placed
/// displays, the row width and the tallest height, or `None` when a size
/// does not resolve or the row leaves the `i32` range. Only the display
/// holding `keep_primary` (if any) stays primary.
pub open spec fn place_rest(
    ms: Seq<MonitorView>,
    s: Seq<DisplayView>,
    mode: LayoutMode,
    keep_primary: Option<Seq<char>>,
) -> Option<(Seq<DisplayView>, int, Option<int>)>
    decreases s.len(),
{
    if s.len() == 0 {
        Some((Seq::empty(), 0, None))
    } else {
        match place_rest(ms, s.drop_last(), mode, keep_primary) {
            None => None,
            Some((placed, cur, mh)) => match crate::layout::logical_size_of(ms, s.last(), mode) {
                None => None,
                Some((w, h)) => if !crate::geometry::fits_i32(cur + w) {
                    None
                } else {
                    let d = DisplayView {
                        x: cur as i32,
                        y: 0,
                        primary: keep_primary matches Some(c) && has_connector(s.last().monitors, c),
                        ..s.last()
                    };
                    Some(
                        (
                            placed.push(d),
                            cur + w,
                            match mh {
                                None => Some(h as int),
                                Some(m) => Some(if m >= h { m } else { h as int }),
                            },
                        ),
                    )
                },
            },
        }
    }
}

/// The first monitor of the primary display, if any.
pub open spec fn previous_primary(l: LayoutView) -> Option<Seq<char>> {
    match primary_index(l.displays) {
        Some(i) => if l.displays[i].monitors.len() > 0 {
            Some(l.displays[i].monitors[0].connector)
        } else {
            None
        },
        None => None,
    }
}

/// What `build_mirror_layout` produces: the layout, or the error.
pub open spec fn build_spec(ms: Seq<MonitorView>, l: LayoutView, members: Seq<Seq<char>>, side: Side) -> Result<LayoutView, LayoutErrorView> {
    match first_missing(ms, members) {
        Some(k) => Err(LayoutErrorView::UnknownMonitor(members[k])),
        None => match mirror_spec(lookup_monitors(ms, members)) {
            Err(e) => Err(LayoutErrorView::Mirror(e)),
            Ok(cands) => if cands.len() == 0 {
                Err(LayoutErrorView::Unsizable)
            } else {
                let cand = cands[0];
                let current = if members.len() > 0 {
                    match group_index(l.displays, members[0]) {
                        Some(i) => Some(l.displays[i].scale),
                        None => None,
                    }
                } else {
                    None
                };
                let first_mon = lookup_monitors(ms, members)[0];
                let preferred = if cand.members.len() > 0 {
                    match crate::layout::find_mode(first_mon.modes, cand.members[0].mode_id) {
                        Some(i) => Some(first_mon.modes[i].preferred_scale),
                        None => None,
                    }
                } else {
                    None
                };
                let scale = build_scale(current, preferred, cand.common_scales);
                let prev = previous_primary(l);
                let mirror_primary = match prev {
                    None => true,
                    Some(p) => members.contains(p),
                };
                let keep = if mirror_primary {
                    None
                } else {
                    prev
                };
                match place_rest(ms, sort_by_position(rest_of(l.displays, members)), l.layout_mode, keep) {
                    None => Err(LayoutErrorView::Unsizable),
                    Some((placed, width, mh)) => assemble_spec(
                        ms,
                        l.layout_mode,
                        cand,
                        scale,
                        mirror_primary,
                        placed,
                        width,
                        mh,
                        side,
                    ),
                }
            },
        },
    }
}

/// The group placed on `side` of the packed row, in front of it, then
/// normalized.
pub open spec fn assemble_spec(
    ms: Seq<MonitorView>,
    mode: LayoutMode,
    cand: CandidateView,
    scale: i64,
    mirror_primary: bool,
    placed: Seq<DisplayView>,
    width: int,
    mh: Option<int>,
    side: Side,
) -> Result<LayoutView, LayoutErrorView> {
    let rest_primary = exists|k: int| 0 <= k < placed.len() && (#[trigger] placed[k]).primary;
    let gw: int = match mode {
        LayoutMode::Logical => crate::layout::scaled(cand.width as int, scale as int) as int,
        LayoutMode::Physical => cand.width as int,
    };
    let gh: int = match mode {
        LayoutMode::Logical => crate::layout::scaled(cand.height as int, scale as int) as int,
        LayoutMode::Physical => cand.height as int,
    };
    let height = match mh {
        Some(h) => h,
        None => 0,
    };
    let pos: (int, int) = match side {
        Side::Left => (-gw, 0),
        Side::Right => (width, 0),
        Side::Above => (0, -gh),
        Side::Below => (0, height),
    };
    if !crate::geometry::fits_i32(pos.0) || !crate::geometry::fits_i32(pos.1) {
        Err(LayoutErrorView::Unsizable)
    } else {
        let group = DisplayView {
            x: pos.0 as i32,
            y: pos.1 as i32,
            scale,
            transform: Transform::Normal,
            primary: mirror_primary || !rest_primary,
            monitors: group_assignments(ms, cand),
        };
        let w = LayoutView { layout_mode: mode, displays: seq![group] + placed };
        if !normalize_fits(ms, w) {
            Err(LayoutErrorView::Unsizable)
        } else {
            Ok(normalized(ms, w))
        }
    }
}

fn contains_str(v: &[String], c: &String) -> (r: bool)
    ensures
        r == v@.map_values(|s: String| s@).contains(c@),
{
    let ghost vv = v@.map_values(|s: String| s@);
    let mut k: usize = 0;
    while k < v.len()
        invariant
            vv == v@.map_values(|s: String| s@),
            k <= v@.len(),
            forall|t: int| 0 <= t < k ==> vv[t] != c@,
        decreases v@.len() - k,
    {
        assert(vv[k as int] == v@[k as int]@);
        if crate::identity::str_eq(v[k].as_str(), c.as_str()) {
            return true;
        }
        k += 1;
    }
    false
}

fn touches_exec(d: &LogicalDisplay, members: &[String]) -> (r: bool)
    ensures
        r == touches_members(d@, members@.map_values(|s: String| s@)),
{
    let ghost mv = members@.map_values(|s: String| s@);
    let mut j: usize = 0;
    while j < d.monitors.len()
        invariant
            mv == members@.map_values(|s: String| s@),
            j <= d.monitors@.len(),
            forall|t: int| 0 <= t < j ==> !mv.contains(#[trigger] d@.monitors[t].connector),
        decreases d.monitors@.len() - j,
    {
        assert(d@.monitors[j as int] == d.monitors@[j as int]@);
        if contains_str(members, &d.monitors[j].connector) {
            assert(mv.contains(d@.monitors[j as int].connector));
            return true;
        }
        j += 1;
    }
    false
}

/// The remaining displays, stably sorted by position.
fn sorted_rest(layout: &DisplayLayout, members: &[String]) -> (r: Vec<LogicalDisplay>)
    ensures
        displays_view(r@) == sort_by_position(rest_of(layout@.displays, members@.map_values(|s: String| s@))),
{
    let ghost d = layout@.displays;
    let ghost mv = members@.map_values(|s: String| s@);
    let ghost pred = |x: DisplayView| !touches_members(x, mv);
    let mut out: Vec<LogicalDisplay> = Vec::new();
    let mut k: usize = 0;
    while k < layout.logical_displays.len()
        invariant
            d == layout@.displays,
            mv == members@.map_values(|s: String| s@),
            pred == (|x: DisplayView| !touches_members(x, mv)),
            k <= d.len(),
            displays_view(out@) == sort_by_position(d.take(k as int).filter(pred)),
        decreases d.len() - k,
    {
        let g = &layout.logical_displays[k];
        assert(d[k as int] == g@);
        proof {
            reveal(Seq::filter);
            let t1 = d.take(k as int + 1);
            assert(t1.drop_last() =~= d.take(k as int));
            assert(t1.last() == g@);
        }
        if !touches_exec(g, members) {
            let ghost prev = displays_view(out@);
            let ghost lst = d.take(k as int + 1).filter(pred);
            assert(lst == d.take(k as int).filter(pred).push(g@));
            assert(lst.drop_last() =~= d.take(k as int).filter(pred));
            let mut cnt: usize = 0;
            let mut j: usize = 0;
            while j < out.len()
                invariant
                    prev == displays_view(out@),
                    j <= prev.len(),
                    cnt <= j,
                    cnt == count_pos_le(prev.subrange(0, j as int), g@),
                decreases prev.len() - j,
            {
                proof {
                    assert(prev.subrange(0, j as int + 1).drop_last() =~= prev.subrange(0, j as int));
                }
                assert(prev[j as int] == out@[j as int]@);
                if out[j].x < g.x || (out[j].x == g.x && out[j].y <= g.y) {
                    cnt += 1;
                }
                j += 1;
            }
            assert(prev.subrange(0, prev.len() as int) =~= prev);
            out.insert(cnt, g.clone());
            assert(displays_view(out@) =~= prev.insert(cnt as int, g@));
        }
        k += 1;
    }
    assert(d.take(d.len() as int) =~= d);
    out
}

/// Packs the remaining displays into one row (see `place_rest`).
fn place_rest_exec(
    monitors: &[PhysicalMonitor],
    rest: Vec<LogicalDisplay>,
    mode: LayoutMode,
    keep_primary: &Option<String>,
) -> (r: Option<(Vec<LogicalDisplay>, i32, Option<i32>)>)
    ensures
        match place_rest(
            monitors_view(monitors@),
            displays_view(rest@),
            mode,
            match keep_primary {
                Some(c) => Some(c@),
                None => None,
            },
        ) {
            None => r is None,
            Some((p, w, mh)) => r matches Some((rp, rw, rmh)) && displays_view(rp@) == p && rw == w && match mh {
                None => rmh is None,
                Some(h) => rmh == Some(h as i32) && i32::MIN <= h <= i32::MAX,
            },
        },
{
    let ghost mv = monitors_view(monitors@);
    let ghost rv = displays_view(rest@);
    let ghost kp: Option<Seq<char>> = match keep_primary {
        Some(c) => Some(c@),
        None => None,
    };
    let mut out: Vec<LogicalDisplay> = Vec::new();
    let mut cursor: i32 = 0;
    let mut tallest: Option<i32> = None;
    let mut k: usize = 0;
    while k < rest.len()
        invariant
            mv == monitors_view(monitors@),
            rv == displays_view(rest@),
            kp == match keep_primary {
                Some(c) => Some(c@),
                None => None,
            },
            k <= rv.len(),
            place_rest(mv, rv.take(k as int), mode, kp) matches Some((p, w, mh)) && displays_view(out@) == p
                && cursor == w && match mh {
                None => tallest is None,
                Some(h) => tallest == Some(h as i32) && i32::MIN <= h <= i32::MAX,
            },
        decreases rv.len() - k,
    {
        let g = &rest[k];
        assert(rv[k as int] == g@);
        proof {
            assert(rv.take(k as int + 1).drop_last() =~= rv.take(k as int));
            assert(rv.take(k as int + 1).last() == g@);
        }
        let (w, h) = match g.logical_size(monitors, mode) {
            None => {
                proof {
                    lemma_place_rest_none(mv, rv, mode, kp, k as int + 1);
                }
                return None;
            },
            Some(s) => s,
        };
        let next: i64 = cursor as i64 + w as i64;
        if next < i32::MIN as i64 || next > i32::MAX as i64 {
            proof {
                lemma_place_rest_none(mv, rv, mode, kp, k as int + 1);
            }
            return None;
        }
        let primary = match keep_primary {
            Some(c) => g.contains_connector(c.as_str()),
            None => false,
        };
        let nd = LogicalDisplay {
            x: cursor,
            y: 0,
            scale: g.scale,
            transform: g.transform,
            primary,
            monitors: clone_assignments(&g.monitors),
        };
        let ghost before = out@;
        out.push(nd);
        assert(displays_view(out@) =~= displays_view(before).push(nd@));
        cursor = next as i32;
        tallest = match tallest {
            None => Some(h),
            Some(m) => Some(if m >= h { m } else { h }),
        };
        k += 1;
    }
    assert(rv.take(rv.len() as int) =~= rv);
    Some((out, cursor, tallest))
}

/// Once placing fails on a prefix, it fails on every longer one.
proof fn lemma_place_rest_none(
    ms: Seq<MonitorView>,
    s: Seq<DisplayView>,
    mode: LayoutMode,
    keep: Option<Seq<char>>,
    n: int,
)
    requires
        0 < n <= s.len(),
        place_rest(ms, s.take(n), mode, keep) is None,
    ensures
        place_rest(ms, s, mode, keep) is None,
    decreases s.len() - n,
{
    if n < s.len() {
        assert(s.take(n + 1).drop_last() =~= s.take(n));
        lemma_place_rest_none(ms, s, mode, keep, n + 1);
    } else {
        assert(s.take(n) =~= s);
    }
}

/// Builds a layout where `members` form one mirror group placed on `side`
/// of the remaining enabled displays. The remaining displays keep their
/// mode, scale and transform and their left-to-right order, packed into a
/// row. The group uses the best common resolution; the primary flag stays
/// with the display holding the previously primary monitor, or goes to
/// the group when that monitor joined it (or no primary is left).
pub fn build_mirror_layout(state: &DisplayState, members: &[String], side: Side) -> (r: Result<DisplayLayout, MirrorLayoutError>)
    ensures
        match (r, build_spec(state.monitors_v(), state.layout@, members@.map_values(|s: String| s@), side)) {
            (Ok(l), Ok(v)) => l@ == v,
            (Err(e), Err(v)) => e@ == v,
            _ => false,
        },
{
    let ghost ms = state.monitors_v();
    let ghost mv = members@.map_values(|s: String| s@);
    let member_monitors = match lookup_exec(state, members) {
        Err(k) => {
            assert(mv[k as int] == members@[k as int]@);
            return Err(MirrorLayoutError::UnknownMonitor(members[k].clone()));
        },
        Ok(m) => m,
    };
    let candidates = match mirror_candidates(member_monitors.as_slice()) {
        Err(e) => {
            return Err(MirrorLayoutError::Mirror(e));
        },
        Ok(c) => c,
    };
    if candidates.len() == 0 {
        return Err(MirrorLayoutError::Unsizable);
    }
    let candidate = &candidates[0];
    assert(candidates_view(candidates@)[0] == candidate@);
    let current: Option<i64> = if members.len() > 0 {
        assert(mv[0] == members@[0]@);
        match state.layout.group_of(members[0].as_str()) {
            Some((_, g)) => Some(g.scale),
            None => None,
        }
    } else {
        None
    };
    let preferred: Option<i64> = if candidate.members.len() > 0 && member_monitors.len() > 0 {
        assert(candidate@.members[0] == candidate.members@[0]@);
        match member_monitors[0].find_mode_index(candidate.members[0].mode_id.as_str()) {
            Some(i) => {
                assert(member_monitors@[0]@.modes[i as int] == member_monitors[0].modes@[i as int]@);
                Some(member_monitors[0].modes[i].preferred_scale)
            },
            None => None,
        }
    } else {
        None
    };
    assert(lookup_monitors(ms, mv).len() == mv.len());
    let scale: i64 = match current {
        Some(c) if listed(&candidate.common_scales, c) => c,
        _ => match preferred {
            Some(p) if listed(&candidate.common_scales, p) => p,
            _ => fallback_scale_exec(&candidate.common_scales),
        },
    };
    let prev: Option<String> = match state.layout.primary() {
        Some(d) => if d.monitors.len() > 0 {
            assert(d@.monitors[0] == d.monitors@[0]@);
            Some(d.monitors[0].connector.clone())
        } else {
            None
        },
        None => None,
    };
    let mirror_primary = match &prev {
        None => true,
        Some(p) => contains_str(members, p),
    };
    let keep: Option<String> = if mirror_primary {
        None
    } else {
        prev
    };
    let rest = sorted_rest(&state.layout, members);
    let (placed, width, tallest) = match place_rest_exec(state.monitors.as_slice(), rest, state.layout.layout_mode, &keep) {
        None => {
            return Err(MirrorLayoutError::Unsizable);
        },
        Some(t) => t,
    };
    proof {
        let l = state.layout@;
        let cands = mirror_spec(lookup_monitors(ms, mv))->Ok_0;
        assert(cands[0] == candidate@);
        let cur_s = if mv.len() > 0 {
            match group_index(l.displays, mv[0]) {
                Some(i) => Some(l.displays[i].scale),
                None => None,
            }
        } else {
            None
        };
        assert(cur_s == current);
        let first_mon = lookup_monitors(ms, mv)[0];
        let pref_s = if candidate@.members.len() > 0 {
            match crate::layout::find_mode(first_mon.modes, candidate@.members[0].mode_id) {
                Some(i) => Some(first_mon.modes[i].preferred_scale),
                None => None,
            }
        } else {
            None
        };
        assert(pref_s == preferred);
        assert(scale == build_scale(cur_s, pref_s, candidate@.common_scales));
        assert(mirror_primary == match previous_primary(l) {
            None => true,
            Some(p) => mv.contains(p),
        });
        let kp: Option<Seq<char>> = if mirror_primary { None } else { previous_primary(l) };
        assert(kp == match keep {
            Some(c) => Some(c@),
            None => None,
        });
    }
    assemble(state, candidate, scale, mirror_primary, placed, width, tallest, side)
}

/// Places the group on `side` of the packed row and normalizes.
fn assemble(
    state: &DisplayState,
    candidate: &MirrorCandidate,
    scale: i64,
    mirror_primary: bool,
    placed: Vec<LogicalDisplay>,
    width: i32,
    tallest: Option<i32>,
    side: Side,
) -> (r: Result<DisplayLayout, MirrorLayoutError>)
    ensures
        match (
            r,
            assemble_spec(
                state.monitors_v(),
                state.layout.layout_mode,
                candidate@,
                scale,
                mirror_primary,
                displays_view(placed@),
                width as int,
                match tallest {
                    Some(h) => Some(h as int),
                    None => None,
                },
                side,
            ),
        ) {
            (Ok(l), Ok(v)) => l@ == v,
            (Err(e), Err(v)) => e@ == v,
            _ => false,
        },
{
    let ghost ms = state.monitors_v();
    let ghost pv = displays_view(placed@);
    let mut rest_primary = false;
    let mut k: usize = 0;
    while k < placed.len()
        invariant
            pv == displays_view(placed@),
            k <= placed@.len(),
            rest_primary == exists|t: int| 0 <= t < k && (#[trigger] pv[t]).primary,
        decreases placed@.len() - k,
    {
        assert(pv[k as int] == placed@[k as int]@);
        if placed[k].primary {
            rest_primary = true;
        }
        k += 1;
    }
    let (gw, gh): (i32, i32) = match state.layout.layout_mode {
        LayoutMode::Logical => crate::layout::scale_size(candidate.width, candidate.height, scale),
        LayoutMode::Physical => (candidate.width, candidate.height),
    };
    let height: i32 = match tallest {
        Some(h) => h,
        None => 0,
    };
    let (px, py): (i64, i64) = match side {
        Side::Left => (-(gw as i64), 0),
        Side::Right => (width as i64, 0),
        Side::Above => (0, -(gh as i64)),
        Side::Below => (0, height as i64),
    };
    if px < i32::MIN as i64 || px > i32::MAX as i64 || py < i32::MIN as i64 || py > i32::MAX as i64 {
        return Err(MirrorLayoutError::Unsizable);
    }
    let group = LogicalDisplay {
        x: px as i32,
        y: py as i32,
        scale,
        transform: Transform::Normal,
        primary: mirror_primary || !rest_primary,
        monitors: assignments_for(state, candidate),
    };
    let ghost group_v = group@;
    let mut displays: Vec<LogicalDisplay> = Vec::new();
    displays.push(group);
    let mut placed = placed;
    displays.append(&mut placed);
    let mut layout = DisplayLayout { layout_mode: state.layout.layout_mode, logical_displays: displays };
    assert(displays_view(layout.logical_displays@) =~= seq![group_v] + pv);
    if !can_normalize(&layout, state.monitors.as_slice()) {
        return Err(MirrorLayoutError::Unsizable);
    }
    normalize(&mut layout, state.monitors.as_slice());
    Ok(layout)
}

/// A built partial-mirror layout always has a primary display.
pub proof fn lemma_build_has_primary(ms: Seq<MonitorView>, l: LayoutView, members: Seq<Seq<char>>, side: Side)
    ensures
        build_spec(ms, l, members, side) matches Ok(v) ==> exists|i: int|
            0 <= i < v.displays.len() && (#[trigger] v.displays[i]).primary,
{
    if let Ok(v) = build_spec(ms, l, members, side) {
        let cands = mirror_spec(lookup_monitors(ms, members))->Ok_0;
        let cand = cands[0];
        let current = if members.len() > 0 {
            match group_index(l.displays, members[0]) {
                Some(i) => Some(l.displays[i].scale),
                None => None,
            }
        } else {
            None
        };
        let first_mon = lookup_monitors(ms, members)[0];
        let preferred = if cand.members.len() > 0 {
            match crate::layout::find_mode(first_mon.modes, cand.members[0].mode_id) {
                Some(i) => Some(first_mon.modes[i].preferred_scale),
                None => None,
            }
        } else {
            None
        };
        let scale = build_scale(current, preferred, cand.common_scales);
        let prev = previous_primary(l);
        let mirror_primary = match prev {
            None => true,
            Some(p) => members.contains(p),
        };
        let keep = if mirror_primary { None } else { prev };
        let pr = place_rest(ms, sort_by_position(rest_of(l.displays, members)), l.layout_mode, keep)->0;
        let placed = pr.0;
        let spec_v = assemble_spec(ms, l.layout_mode, cand, scale, mirror_primary, placed, pr.1, pr.2, side);
        assert(spec_v == Ok::<LayoutView, LayoutErrorView>(v));
        let rest_primary = exists|k: int| 0 <= k < placed.len() && (#[trigger] placed[k]).primary;
        if mirror_primary || !rest_primary {
            assert(v.displays[0].primary);
        } else {
            let k = choose|k: int| 0 <= k < placed.len() && (#[trigger] placed[k]).primary;
            assert(v.displays[k + 1].primary);
        }
    }
}

/// Number of displays holding connector `c`.
pub open spec fn count_holding(s: Seq<DisplayView>, c: Seq<char>) -> nat
    decreases s.len(),
{
    if s.len() == 0 {
        0
    } else {
        count_holding(s.drop_last(), c) + if has_connector(s.last().monitors, c) {
            1nat
        } else {
            0nat
        }
    }
}

/// No connector is held by two different displays.
pub open spec fn connectors_unique(d: Seq<DisplayView>) -> bool {
    forall|i: int, j: int, c: Seq<char>|
        0 <= i < j < d.len() ==> !(#[trigger] has_connector(d[i].monitors, c) && #[trigger] has_connector(
            d[j].monitors,
            c,
        ))
}

proof fn lemma_holding_none(d: Seq<DisplayView>, c: Seq<char>)
    requires
        forall|i: int| 0 <= i < d.len() ==> !has_connector((#[trigger] d[i]).monitors, c),
    ensures
        count_holding(d, c) == 0,
    decreases d.len(),
{
    if d.len() > 0 {
        let p = d.drop_last();
        assert forall|i: int| 0 <= i < p.len() implies !has_connector((#[trigger] p[i]).monitors, c) by {
            assert(p[i] == d[i]);
        }
        lemma_holding_none(p, c);
        assert(d.last() == d[d.len() - 1]);
    }
}

proof fn lemma_holding_at_most_one(d: Seq<DisplayView>, c: Seq<char>)
    requires
        connectors_unique(d),
    ensures
        count_holding(d, c) <= 1,
    decreases d.len(),
{
    if d.len() > 0 {
        let p = d.drop_last();
        assert(connectors_unique(p)) by {
            assert forall|i: int, j: int, c2: Seq<char>| 0 <= i < j < p.len() implies !(#[trigger] has_connector(
                p[i].monitors,
                c2,
            ) && #[trigger] has_connector(p[j].monitors, c2)) by {
                assert(p[i] == d[i] && p[j] == d[j]);
            }
        }
        lemma_holding_at_most_one(p, c);
        if has_connector(d.last().monitors, c) {
            assert forall|i: int| 0 <= i < p.len() implies !has_connector((#[trigger] p[i]).monitors, c) by {
                assert(p[i] == d[i]);
                assert(d.last() == d[d.len() - 1]);
            }
            lemma_holding_none(p, c);
        }
    }
}

proof fn lemma_filter_holding(s: Seq<DisplayView>, f: spec_fn(DisplayView) -> bool, c: Seq<char>)
    ensures
        count_holding(s.filter(f), c) <= count_holding(s, c),
    decreases s.len(),
{
    reveal(Seq::filter);
    if s.len() > 0 {
        lemma_filter_holding(s.drop_last(), f, c);
        let sub = s.drop_last().filter(f);
        if f(s.last()) {
            assert(s.filter(f) == sub.push(s.last()));
            assert(sub.push(s.last()).drop_last() =~= sub);
        } else {
            assert(s.filter(f) == sub);
        }
    }
}

proof fn lemma_insert_holding(q: Seq<DisplayView>, pos: int, x: DisplayView, c: Seq<char>)
    requires
        0 <= pos <= q.len(),
    ensures
        count_holding(q.insert(pos, x), c) == count_holding(q, c) + if has_connector(x.monitors, c) {
            1nat
        } else {
            0nat
        },
    decreases q.len(),
{
    let r = q.insert(pos, x);
    if pos == q.len() {
        assert(r.drop_last() =~= q);
        assert(r.last() == x);
    } else {
        lemma_insert_holding(q.drop_last(), pos, x, c);
        assert(r.drop_last() =~= q.drop_last().insert(pos, x));
        assert(r.last() == q.last());
    }
}

proof fn lemma_sort_holding(s: Seq<DisplayView>, c: Seq<char>)
    ensures
        count_holding(sort_by_position(s), c) == count_holding(s, c),
    decreases s.len(),
{
    if s.len() > 0 {
        let prev = sort_by_position(s.drop_last());
        lemma_sort_holding(s.drop_last(), c);
        lemma_count_pos_le_bound(prev, s.last());
        lemma_insert_holding(prev, count_pos_le(prev, s.last()) as int, s.last(), c);
    }
}

proof fn lemma_count_pos_le_bound(prev: Seq<DisplayView>, x: DisplayView)
    ensures
        count_pos_le(prev, x) <= prev.len(),
    decreases prev.len(),
{
    if prev.len() > 0 {
        lemma_count_pos_le_bound(prev.drop_last(), x);
    }
}

proof fn lemma_place_rest_primary(ms: Seq<MonitorView>, s: Seq<DisplayView>, mode: LayoutMode, keep: Option<Seq<char>>)
    ensures
        place_rest(ms, s, mode, keep) matches Some((p, _, _)) ==> count_primary(p) == match keep {
            Some(c) => count_holding(s, c),
            None => 0,
        },
    decreases s.len(),
{
    if s.len() > 0 {
        lemma_place_rest_primary(ms, s.drop_last(), mode, keep);
        if let Some((p, _, _)) = place_rest(ms, s, mode, keep) {
            let (p0, _, _) = place_rest(ms, s.drop_last(), mode, keep)->0;
            assert(p.drop_last() =~= p0);
        }
    }
}

proof fn lemma_count_primary_prepend(g: DisplayView, p: Seq<DisplayView>)
    ensures
        count_primary(seq![g] + p) == count_primary(p) + if g.primary {
            1nat
        } else {
            0nat
        },
    decreases p.len(),
{
    if p.len() > 0 {
        lemma_count_primary_prepend(g, p.drop_last());
        assert((seq![g] + p).drop_last() =~= seq![g] + p.drop_last());
        assert((seq![g] + p).last() == p.last());
    } else {
        assert(seq![g] + p =~= seq![g]);
        assert(seq![g].drop_last() =~= Seq::<DisplayView>::empty());
        assert(count_primary(Seq::<DisplayView>::empty()) == 0);
    }
}

/// Building a mirror layout fails with the first member that is not
/// connected; when it succeeds from a layout where no monitor is in two
/// displays, exactly one display of the result is primary: the group when
/// it holds the previously primary monitor (or there was none), else the
/// display that does.
pub proof fn lemma_build_one_primary(ms: Seq<MonitorView>, l: LayoutView, members: Seq<Seq<char>>, side: Side)
    ensures
        first_missing(ms, members) matches Some(k) ==> build_spec(ms, l, members, side)
            == Err::<LayoutView, LayoutErrorView>(LayoutErrorView::UnknownMonitor(members[k])),
        connectors_unique(l.displays) && build_spec(ms, l, members, side) is Ok ==> count_primary(
            build_spec(ms, l, members, side)->Ok_0.displays,
        ) == 1,
{
    if connectors_unique(l.displays) {
        if let Ok(v) = build_spec(ms, l, members, side) {
            let cands = mirror_spec(lookup_monitors(ms, members))->Ok_0;
            let cand = cands[0];
            let current = if members.len() > 0 {
                match group_index(l.displays, members[0]) {
                    Some(i) => Some(l.displays[i].scale),
                    None => None,
                }
            } else {
                None
            };
            let first_mon = lookup_monitors(ms, members)[0];
            let preferred = if cand.members.len() > 0 {
                match crate::layout::find_mode(first_mon.modes, cand.members[0].mode_id) {
                    Some(i) => Some(first_mon.modes[i].preferred_scale),
                    None => None,
                }
            } else {
                None
            };
            let scale = build_scale(current, preferred, cand.common_scales);
            let prev = previous_primary(l);
            let mirror_primary = match prev {
                None => true,
                Some(p) => members.contains(p),
            };
            let keep = if mirror_primary { None } else { prev };
            let rest = rest_of(l.displays, members);
            let sorted = sort_by_position(rest);
            let pr = place_rest(ms, sorted, l.layout_mode, keep)->0;
            let placed = pr.0;
            let spec_v = assemble_spec(ms, l.layout_mode, cand, scale, mirror_primary, placed, pr.1, pr.2, side);
            assert(spec_v == Ok::<LayoutView, LayoutErrorView>(v));
            lemma_place_rest_primary(ms, sorted, l.layout_mode, keep);
            crate::validation_laws::lemma_count_primary(placed);
            let rest_primary = exists|k: int| 0 <= k < placed.len() && (#[trigger] placed[k]).primary;
            let gw: int = match l.layout_mode {
                LayoutMode::Logical => crate::layout::scaled(cand.width as int, scale as int) as int,
                LayoutMode::Physical => cand.width as int,
            };
            let gh: int = match l.layout_mode {
                LayoutMode::Logical => crate::layout::scaled(cand.height as int, scale as int) as int,
                LayoutMode::Physical => cand.height as int,
            };
            let height = match pr.2 {
                Some(h) => h,
                None => 0,
            };
            let pos: (int, int) = match side {
                Side::Left => (-gw, 0),
                Side::Right => (pr.1, 0),
                Side::Above => (0, -gh),
                Side::Below => (0, height),
            };
            let group = DisplayView {
                x: pos.0 as i32,
                y: pos.1 as i32,
                scale,
                transform: Transform::Normal,
                primary: mirror_primary || !rest_primary,
                monitors: group_assignments(ms, cand),
            };
            let w = LayoutView { layout_mode: l.layout_mode, displays: seq![group] + placed };
            assert(v == normalized(ms, w));
            lemma_count_primary_prepend(group, placed);
            assert(crate::normalization::same_settings(w.displays, v.displays)) by {
                let (ox, oy) = layout_origin(ms, w);
                assert forall|i: int| 0 <= i < w.displays.len() implies #[trigger] v.displays[i]
                    == shifted_display(w.displays[i], ox, oy) by {}
            }
            crate::normalization::lemma_primary_count_same(w.displays, v.displays);
            if !mirror_primary {
                let c = prev->0;
                lemma_holding_at_most_one(l.displays, c);
                lemma_filter_holding(l.displays, |x: DisplayView| !touches_members(x, members), c);
                lemma_sort_holding(rest, c);
            }
        }
    }
}

/// `d` has `x`'s monitors, scale and transform.
pub open spec fn keeps_settings(d: DisplayView, x: DisplayView) -> bool {
    d.monitors == x.monitors && d.scale == x.scale && d.transform == x.transform
}

proof fn lemma_sort_contains(s: Seq<DisplayView>, x: DisplayView)
    requires
        s.contains(x),
    ensures
        sort_by_position(s).contains(x),
    decreases s.len(),
{
    let p = s.drop_last();
    let prev = sort_by_position(p);
    lemma_count_pos_le_bound(prev, s.last());
    let pos = count_pos_le(prev, s.last()) as int;
    let out = sort_by_position(s);
    assert(out == prev.insert(pos, s.last()));
    if x == s.last() {
        assert(out[pos] == x);
    } else {
        let t = choose|t: int| 0 <= t < s.len() && s[t] == x;
        assert(t < s.len() - 1);
        assert(p[t] == x);
        lemma_sort_contains(p, x);
        let k = choose|k: int| 0 <= k < prev.len() && prev[k] == x;
        if k < pos {
            assert(out[k] == x);
        } else {
            assert(out[k + 1] == x);
        }
    }
}

proof fn lemma_place_rest_keeps(ms: Seq<MonitorView>, s: Seq<DisplayView>, mode: LayoutMode, keep: Option<Seq<char>>)
    ensures
        place_rest(ms, s, mode, keep) matches Some((p, _, _)) ==> p.len() == s.len() && forall|k: int|
            0 <= k < s.len() ==> #[trigger] keeps_settings(p[k], s[k]),
    decreases s.len(),
{
    if s.len() > 0 {
        lemma_place_rest_keeps(ms, s.drop_last(), mode, keep);
        if let Some((p, _, _)) = place_rest(ms, s, mode, keep) {
            let (p0, _, _) = place_rest(ms, s.drop_last(), mode, keep)->0;
            assert(p == p0.push(p[p.len() - 1]));
            assert forall|k: int| 0 <= k < s.len() implies #[trigger] keeps_settings(p[k], s[k]) by {
                if k < s.len() - 1 {
                    assert(p[k] == p0[k]);
                    assert(s[k] == s.drop_last()[k]);
                }
            }
        }
    }
}

/// A built mirror layout has the group first, holding exactly the members,
/// in order; every display that held none of the members is still there
/// with its monitors, scale and transform.
pub proof fn lemma_build_group(ms: Seq<MonitorView>, l: LayoutView, members: Seq<Seq<char>>, side: Side)
    ensures
        build_spec(ms, l, members, side) matches Ok(v) ==> {
            &&& v.displays.len() > 0
            &&& v.displays[0].monitors.len() == members.len()
            &&& forall|i: int| 0 <= i < members.len() ==> (#[trigger] v.displays[0].monitors[i]).connector == members[i]
            &&& forall|i: int|
                0 <= i < l.displays.len() && !touches_members(#[trigger] l.displays[i], members) ==> exists|j: int|
                    0 <= j < v.displays.len() && #[trigger] keeps_settings(v.displays[j], l.displays[i])
        },
{
    if let Ok(v) = build_spec(ms, l, members, side) {
        let cands = mirror_spec(lookup_monitors(ms, members))->Ok_0;
        let cand = cands[0];
        let current = if members.len() > 0 {
            match group_index(l.displays, members[0]) {
                Some(i) => Some(l.displays[i].scale),
                None => None,
            }
        } else {
            None
        };
        let first_mon = lookup_monitors(ms, members)[0];
        let preferred = if cand.members.len() > 0 {
            match crate::layout::find_mode(first_mon.modes, cand.members[0].mode_id) {
                Some(i) => Some(first_mon.modes[i].preferred_scale),
                None => None,
            }
        } else {
            None
        };
        let scale = build_scale(current, preferred, cand.common_scales);
        let prev = previous_primary(l);
        let mirror_primary = match prev {
            None => true,
            Some(p) => members.contains(p),
        };
        let keep = if mirror_primary { None } else { prev };
        let rest = rest_of(l.displays, members);
        let sorted = sort_by_position(rest);
        let pr = place_rest(ms, sorted, l.layout_mode, keep)->0;
        let placed = pr.0;
        let spec_v = assemble_spec(ms, l.layout_mode, cand, scale, mirror_primary, placed, pr.1, pr.2, side);
        assert(spec_v == Ok::<LayoutView, LayoutErrorView>(v));
        let rest_primary = exists|k: int| 0 <= k < placed.len() && (#[trigger] placed[k]).primary;
        let gw: int = match l.layout_mode {
            LayoutMode::Logical => crate::layout::scaled(cand.width as int, scale as int) as int,
            LayoutMode::Physical => cand.width as int,
        };
        let gh: int = match l.layout_mode {
            LayoutMode::Logical => crate::layout::scaled(cand.height as int, scale as int) as int,
            LayoutMode::Physical => cand.height as int,
        };
        let height = match pr.2 {
            Some(h) => h,
            None => 0,
        };
        let pos: (int, int) = match side {
            Side::Left => (-gw, 0),
            Side::Right => (pr.1, 0),
            Side::Above => (0, -gh),
            Side::Below => (0, height),
        };
        let group = DisplayView {
            x: pos.0 as i32,
            y: pos.1 as i32,
            scale,
            transform: Transform::Normal,
            primary: mirror_primary || !rest_primary,
            monitors: group_assignments(ms, cand),
        };
        let w = LayoutView { layout_mode: l.layout_mode, displays: seq![group] + placed };
        assert(v == normalized(ms, w));
        let (ox, oy) = layout_origin(ms, w);
        assert(v.displays[0] == shifted_display(w.displays[0], ox, oy));
        assert(w.displays[0] == group);
        let lk = lookup_monitors(ms, members);
        crate::mirror::lemma_mirror_members(lk);
        assert(crate::mirror::members_match(lk, cands[0]));
        assert(first_missing(ms, members) is None);
        assert forall|i: int| 0 <= i < members.len() implies (#[trigger] v.displays[0].monitors[i]).connector
            == members[i] by {
            if find_monitor(ms, members[i]) is None {
                crate::seqs::lemma_first_where_some(members, |c: Seq<char>| find_monitor(ms, c) is None, i);
            }
            let k = find_monitor(ms, members[i])->0;
            assert(crate::seqs::is_first(ms, crate::layout::connector_is(members[i]), k));
            assert(lk[i] == ms[k]);
            assert(cand.members[i].connector == lk[i].identity.connector@);
            assert(v.displays[0].monitors[i] == assignment_for(ms, cand.members[i]));
        }
        let pred = |x: DisplayView| !touches_members(x, members);
        lemma_place_rest_keeps(ms, sorted, l.layout_mode, keep);
        assert forall|i: int|
            0 <= i < l.displays.len() && !touches_members(#[trigger] l.displays[i], members) implies exists|j: int|
                0 <= j < v.displays.len() && #[trigger] keeps_settings(v.displays[j], l.displays[i]) by {
            let x = l.displays[i];
            l.displays.lemma_filter_contains(pred, i);
            assert(rest.contains(x));
            lemma_sort_contains(rest, x);
            let k = choose|k: int| 0 <= k < sorted.len() && sorted[k] == x;
            assert(keeps_settings(placed[k], x));
            assert(w.displays[k + 1] == placed[k]);
            assert(v.displays[k + 1] == shifted_display(w.displays[k + 1], ox, oy));
            assert(keeps_settings(v.displays[k + 1], x));
        }
    }
}


/// `a` lies strictly before `b` in reading order: further left, or at the
/// same horizontal position and higher up.
pub open spec fn before_in_row(a: DisplayView, b: DisplayView) -> bool {
    a.x < b.x || (a.x == b.x && a.y < b.y)
}

/// The display's logical width, where it resolves, is positive.
pub open spec fn has_width(ms: Seq<MonitorView>, d: DisplayView, mode: LayoutMode) -> bool {
    crate::layout::logical_size_of(ms, d, mode) matches Some((w, _)) ==> w > 0
}

/// Displays `ja < jb` of `v` (neither of them the group, which comes
/// first) keep the settings of `a` and of `b`.
pub open spec fn kept_in_order(v: Seq<DisplayView>, a: DisplayView, b: DisplayView, ja: int, jb: int) -> bool {
    &&& 0 < ja < jb < v.len()
    &&& keeps_settings(v[ja], a)
    &&& keeps_settings(v[jb], b)
}

spec fn by_position(s: Seq<DisplayView>) -> bool {
    forall|p: int, q: int| 0 <= p < q < s.len() ==> pos_le(#[trigger] s[p], #[trigger] s[q])
}

proof fn lemma_count_pos_le_prefix(prev: Seq<DisplayView>, x: DisplayView)
    requires
        by_position(prev),
    ensures
        forall|k: int| 0 <= k < count_pos_le(prev, x) ==> pos_le(#[trigger] prev[k], x),
        forall|k: int| count_pos_le(prev, x) <= k < prev.len() ==> !pos_le(#[trigger] prev[k], x),
    decreases prev.len(),
{
    if prev.len() > 0 {
        let init = prev.drop_last();
        assert(by_position(init)) by {
            assert forall|p: int, q: int| 0 <= p < q < init.len() implies pos_le(#[trigger] init[p], #[trigger] init[q]) by {
                assert(init[p] == prev[p] && init[q] == prev[q]);
            }
        }
        lemma_count_pos_le_prefix(init, x);
        lemma_count_pos_le_bound(init, x);
        let last = prev.last();
        if pos_le(last, x) {
            assert forall|k: int| 0 <= k < init.len() implies pos_le(#[trigger] init[k], x) by {
                assert(init[k] == prev[k]);
                assert(pos_le(prev[k], prev[prev.len() - 1]));
            }
            assert forall|k: int| 0 <= k < count_pos_le(prev, x) implies pos_le(#[trigger] prev[k], x) by {
                if k < init.len() {
                    assert(init[k] == prev[k]);
                }
            }
        } else {
            assert forall|k: int| count_pos_le(prev, x) <= k < prev.len() implies !pos_le(#[trigger] prev[k], x) by {
                if k < init.len() {
                    assert(init[k] == prev[k]);
                }
            }
            assert forall|k: int| 0 <= k < count_pos_le(prev, x) implies pos_le(#[trigger] prev[k], x) by {
                assert(init[k] == prev[k]);
            }
        }
    }
}

proof fn lemma_sort_by_position(s: Seq<DisplayView>)
    ensures
        by_position(sort_by_position(s)),
        sort_by_position(s).len() == s.len(),
    decreases s.len(),
{
    if s.len() > 0 {
        let prev = sort_by_position(s.drop_last());
        let x = s.last();
        lemma_sort_by_position(s.drop_last());
        lemma_count_pos_le_bound(prev, x);
        lemma_count_pos_le_prefix(prev, x);
        let pos = count_pos_le(prev, x) as int;
        let t = sort_by_position(s);
        assert(t == prev.insert(pos, x));
        assert forall|p: int, q: int| 0 <= p < q < t.len() implies pos_le(#[trigger] t[p], #[trigger] t[q]) by {
            if q < pos {
                assert(t[p] == prev[p] && t[q] == prev[q]);
            } else if q == pos {
                assert(t[p] == prev[p]);
            } else if p < pos {
                assert(t[p] == prev[p] && t[q] == prev[q - 1]);
                assert(pos_le(prev[p], x));
                assert(!pos_le(prev[q - 1], x));
            } else if p == pos {
                assert(t[q] == prev[q - 1]);
                assert(!pos_le(prev[q - 1], x));
            } else {
                assert(t[p] == prev[p - 1] && t[q] == prev[q - 1]);
            }
        }
    }
}

proof fn lemma_sort_elements(s: Seq<DisplayView>)
    ensures
        forall|k: int| 0 <= k < sort_by_position(s).len() ==> s.contains(#[trigger] sort_by_position(s)[k]),
    decreases s.len(),
{
    if s.len() > 0 {
        let p = s.drop_last();
        lemma_sort_elements(p);
        let prev = sort_by_position(p);
        lemma_count_pos_le_bound(prev, s.last());
        let pos = count_pos_le(prev, s.last()) as int;
        let out = sort_by_position(s);
        assert(out == prev.insert(pos, s.last()));
        assert forall|k: int| 0 <= k < out.len() implies s.contains(#[trigger] out[k]) by {
            if k == pos {
                assert(s[s.len() - 1] == out[k]);
            } else {
                let kk = if k < pos { k } else { k - 1 };
                assert(out[k] == prev[kk]);
                let t = choose|t: int| 0 <= t < p.len() && p[t] == prev[kk];
                assert(s[t] == p[t]);
            }
        }
    }
}

proof fn lemma_place_rest_row(ms: Seq<MonitorView>, s: Seq<DisplayView>, mode: LayoutMode, keep: Option<Seq<char>>)
    requires
        forall|k: int| 0 <= k < s.len() ==> has_width(ms, #[trigger] s[k], mode),
    ensures
        place_rest(ms, s, mode, keep) matches Some((p, cur, _)) ==> {
            &&& p.len() == s.len()
            &&& 0 <= cur && crate::geometry::fits_i32(cur)
            &&& forall|k: int| 0 <= k < p.len() ==> 0 <= (#[trigger] p[k]).x < cur
            &&& forall|a: int, b: int| 0 <= a < b < p.len() ==> (#[trigger] p[a]).x < (#[trigger] p[b]).x
        },
    decreases s.len(),
{
    if s.len() > 0 {
        assert forall|k: int| 0 <= k < s.drop_last().len() implies has_width(ms, #[trigger] s.drop_last()[k], mode) by {
            assert(s.drop_last()[k] == s[k]);
        }
        lemma_place_rest_row(ms, s.drop_last(), mode, keep);
        if let Some((p, cur, _)) = place_rest(ms, s, mode, keep) {
            let (p0, cur0, _) = place_rest(ms, s.drop_last(), mode, keep)->0;
            let (w, h) = crate::layout::logical_size_of(ms, s.last(), mode)->0;
            assert(has_width(ms, s[s.len() - 1], mode));
            assert(w > 0);
            assert(p == p0.push(p[p.len() - 1]));
            assert(p[p.len() - 1].x == cur0);
            assert(cur == cur0 + w);
            assert forall|k: int| 0 <= k < p.len() implies 0 <= (#[trigger] p[k]).x < cur by {
                if k < p0.len() {
                    assert(p[k] == p0[k]);
                }
            }
            assert forall|a: int, b: int| 0 <= a < b < p.len() implies (#[trigger] p[a]).x < (#[trigger] p[b]).x by {
                assert(p[a] == p0[a]);
                if b < p0.len() {
                    assert(p[b] == p0[b]);
                }
            }
        }
    }
}

/// Building a mirror layout keeps the other displays in reading order:
/// of two displays that hold none of the members, the one further left
/// (or, at the same horizontal position, higher up) comes out earlier, and
/// further left as well when every such display has a positive width.
#[verifier::spinoff_prover]
#[verifier::rlimit(80)]
pub proof fn lemma_build_keeps_order(ms: Seq<MonitorView>, l: LayoutView, members: Seq<Seq<char>>, side: Side)
    ensures
        build_spec(ms, l, members, side) matches Ok(v) ==> forall|i: int, j: int|
            0 <= i < l.displays.len() && 0 <= j < l.displays.len() && !touches_members(l.displays[i], members)
                && !touches_members(l.displays[j], members) && #[trigger] before_in_row(l.displays[i], l.displays[j])
                ==> exists|ja: int, jb: int|
                #[trigger] kept_in_order(v.displays, l.displays[i], l.displays[j], ja, jb) && ((forall|t: int|
                    0 <= t < l.displays.len() && !touches_members(l.displays[t], members) ==> #[trigger] has_width(
                        ms,
                        l.displays[t],
                        l.layout_mode,
                    )) ==> v.displays[ja].x < v.displays[jb].x),
{
    if let Ok(v) = build_spec(ms, l, members, side) {
        let cands = mirror_spec(lookup_monitors(ms, members))->Ok_0;
        let cand = cands[0];
        let current = if members.len() > 0 {
            match group_index(l.displays, members[0]) {
                Some(i) => Some(l.displays[i].scale),
                None => None,
            }
        } else {
            None
        };
        let first_mon = lookup_monitors(ms, members)[0];
        let preferred = if cand.members.len() > 0 {
            match crate::layout::find_mode(first_mon.modes, cand.members[0].mode_id) {
                Some(i) => Some(first_mon.modes[i].preferred_scale),
                None => None,
            }
        } else {
            None
        };
        let scale = build_scale(current, preferred, cand.common_scales);
        let prev = previous_primary(l);
        let mirror_primary = match prev {
            None => true,
            Some(p) => members.contains(p),
        };
        let keep = if mirror_primary { None } else { prev };
        let rest = rest_of(l.displays, members);
        let sorted = sort_by_position(rest);
        let pr = place_rest(ms, sorted, l.layout_mode, keep)->0;
        let placed = pr.0;
        let spec_v = assemble_spec(ms, l.layout_mode, cand, scale, mirror_primary, placed, pr.1, pr.2, side);
        assert(spec_v == Ok::<LayoutView, LayoutErrorView>(v));
        let rest_primary = exists|k: int| 0 <= k < placed.len() && (#[trigger] placed[k]).primary;
        let gw: int = match l.layout_mode {
            LayoutMode::Logical => crate::layout::scaled(cand.width as int, scale as int) as int,
            LayoutMode::Physical => cand.width as int,
        };
        let gh: int = match l.layout_mode {
            LayoutMode::Logical => crate::layout::scaled(cand.height as int, scale as int) as int,
            LayoutMode::Physical => cand.height as int,
        };
        let height = match pr.2 {
            Some(h) => h,
            None => 0,
        };
        let pos: (int, int) = match side {
            Side::Left => (-gw, 0),
            Side::Right => (pr.1, 0),
            Side::Above => (0, -gh),
            Side::Below => (0, height),
        };
        let group = DisplayView {
            x: pos.0 as i32,
            y: pos.1 as i32,
            scale,
            transform: Transform::Normal,
            primary: mirror_primary || !rest_primary,
            monitors: group_assignments(ms, cand),
        };
        let w = LayoutView { layout_mode: l.layout_mode, displays: seq![group] + placed };
        assert(v == normalized(ms, w));
        let (ox, oy) = layout_origin(ms, w);
        assert(v.displays[0] == shifted_display(w.displays[0], ox, oy));
        assert(w.displays[0] == group);
        assert(normalize_fits(ms, w));
        let pred = |x: DisplayView| !touches_members(x, members);
        lemma_place_rest_keeps(ms, sorted, l.layout_mode, keep);
        lemma_sort_by_position(rest);
        lemma_sort_elements(rest);
        let all_wide = forall|t: int|
            0 <= t < l.displays.len() && !touches_members(l.displays[t], members) ==> #[trigger] has_width(
                ms,
                l.displays[t],
                l.layout_mode,
            );
        if all_wide {
            assert forall|k: int| 0 <= k < sorted.len() implies has_width(ms, #[trigger] sorted[k], l.layout_mode) by {
                assert(rest.contains(sorted[k]));
                l.displays.lemma_filter_contains_rev(pred, sorted[k]);
                let t = choose|t: int| 0 <= t < l.displays.len() && l.displays[t] == sorted[k];
                let r = choose|r: int| 0 <= r < rest.len() && rest[r] == sorted[k];
                l.displays.lemma_filter_pred(pred, r);
                assert(has_width(ms, l.displays[t], l.layout_mode));
            }
            lemma_place_rest_row(ms, sorted, l.layout_mode, keep);
        }
        assert forall|i: int, j: int|
            0 <= i < l.displays.len() && 0 <= j < l.displays.len() && !touches_members(l.displays[i], members)
                && !touches_members(l.displays[j], members) && #[trigger] before_in_row(l.displays[i], l.displays[j])
                implies exists|ja: int, jb: int|
                #[trigger] kept_in_order(v.displays, l.displays[i], l.displays[j], ja, jb) && (all_wide
                    ==> v.displays[ja].x < v.displays[jb].x) by {
            let a = l.displays[i];
            let b = l.displays[j];
            l.displays.lemma_filter_contains(pred, i);
            l.displays.lemma_filter_contains(pred, j);
            lemma_sort_contains(rest, a);
            lemma_sort_contains(rest, b);
            let ka = choose|k: int| 0 <= k < sorted.len() && sorted[k] == a;
            let kb = choose|k: int| 0 <= k < sorted.len() && sorted[k] == b;
            if kb <= ka {
                if kb < ka {
                    assert(pos_le(sorted[kb], sorted[ka]));
                }
                assert(false);
            }
            assert(keeps_settings(placed[ka], a));
            assert(keeps_settings(placed[kb], b));
            assert(w.displays[ka + 1] == placed[ka]);
            assert(w.displays[kb + 1] == placed[kb]);
            assert(v.displays[ka + 1] == shifted_display(w.displays[ka + 1], ox, oy));
            assert(v.displays[kb + 1] == shifted_display(w.displays[kb + 1], ox, oy));
            assert(kept_in_order(v.displays, a, b, ka + 1, kb + 1));
            if all_wide {
                assert(placed[ka].x < placed[kb].x);
                assert(v.displays[ka + 1].x == placed[ka].x - ox);
                assert(v.displays[kb + 1].x == placed[kb].x - ox);
            }
        }
    }
}

/// The display's logical height, where it resolves, is positive.
pub open spec fn has_height(ms: Seq<MonitorView>, d: DisplayView, mode: LayoutMode) -> bool {
    crate::layout::logical_size_of(ms, d, mode) matches Some((_, h)) ==> h > 0
}

proof fn lemma_place_rest_flat(ms: Seq<MonitorView>, s: Seq<DisplayView>, mode: LayoutMode, keep: Option<Seq<char>>)
    ensures
        place_rest(ms, s, mode, keep) matches Some((p, _, mh)) ==> {
            &&& p.len() == s.len()
            &&& forall|k: int| 0 <= k < p.len() ==> (#[trigger] p[k]).y == 0
            &&& (mh is None <==> s.len() == 0)
            &&& (forall|k: int| 0 <= k < s.len() ==> has_height(ms, #[trigger] s[k], mode)) ==> (mh matches Some(
                h,
            ) ==> h > 0)
        },
    decreases s.len(),
{
    if s.len() > 0 {
        lemma_place_rest_flat(ms, s.drop_last(), mode, keep);
        if let Some((p, _, mh)) = place_rest(ms, s, mode, keep) {
            let (p0, _, mh0) = place_rest(ms, s.drop_last(), mode, keep)->0;
            assert(p == p0.push(p[p.len() - 1]));
            assert forall|k: int| 0 <= k < p.len() implies (#[trigger] p[k]).y == 0 by {
                if k < p0.len() {
                    assert(p[k] == p0[k]);
                }
            }
            if forall|k: int| 0 <= k < s.len() ==> has_height(ms, #[trigger] s[k], mode) {
                assert forall|k: int| 0 <= k < s.drop_last().len() implies has_height(
                    ms,
                    #[trigger] s.drop_last()[k],
                    mode,
                ) by {
                    assert(s.drop_last()[k] == s[k]);
                }
                assert(has_height(ms, s[s.len() - 1], mode));
            }
        }
    }
}

/// A built mirror layout puts the group on the chosen side of the other
/// displays, which stay in one row: on the right, the group lies in that
/// row further right than every other display (when they all have a
/// positive width); on the left, it lies in that row; below, it lies
/// lower than every other display (when they all have a positive height);
/// above, no other display starts left of it (when they all have a
/// positive width).
#[verifier::spinoff_prover]
#[verifier::rlimit(80)]
pub proof fn lemma_build_side(ms: Seq<MonitorView>, l: LayoutView, members: Seq<Seq<char>>, side: Side)
    ensures
        build_spec(ms, l, members, side) matches Ok(v) ==> {
            let wide = forall|t: int|
                0 <= t < l.displays.len() && !touches_members(l.displays[t], members) ==> #[trigger] has_width(
                    ms,
                    l.displays[t],
                    l.layout_mode,
                );
            let tall = forall|t: int|
                0 <= t < l.displays.len() && !touches_members(l.displays[t], members) ==> #[trigger] has_height(
                    ms,
                    l.displays[t],
                    l.layout_mode,
                );
            &&& forall|a: int, b: int| 1 <= a < v.displays.len() && 1 <= b < v.displays.len() ==> (#[trigger] v.displays[a]).y
                == (#[trigger] v.displays[b]).y
            &&& side == Side::Right && wide ==> forall|k: int|
                1 <= k < v.displays.len() ==> (#[trigger] v.displays[k]).x < v.displays[0].x && v.displays[k].y
                    == v.displays[0].y
            &&& side == Side::Left ==> forall|k: int| 1 <= k < v.displays.len() ==> (#[trigger] v.displays[k]).y == v.displays[0].y
            &&& side == Side::Below && tall ==> forall|k: int|
                1 <= k < v.displays.len() ==> (#[trigger] v.displays[k]).y < v.displays[0].y
            &&& side == Side::Above && wide ==> forall|k: int|
                1 <= k < v.displays.len() ==> v.displays[0].x <= (#[trigger] v.displays[k]).x
        },
{
    if let Ok(v) = build_spec(ms, l, members, side) {
        let cands = mirror_spec(lookup_monitors(ms, members))->Ok_0;
        let cand = cands[0];
        let current = if members.len() > 0 {
            match group_index(l.displays, members[0]) {
                Some(i) => Some(l.displays[i].scale),
                None => None,
            }
        } else {
            None
        };
        let first_mon = lookup_monitors(ms, members)[0];
        let preferred = if cand.members.len() > 0 {
            match crate::layout::find_mode(first_mon.modes, cand.members[0].mode_id) {
                Some(i) => Some(first_mon.modes[i].preferred_scale),
                None => None,
            }
        } else {
            None
        };
        let scale = build_scale(current, preferred, cand.common_scales);
        let prev = previous_primary(l);
        let mirror_primary = match prev {
            None => true,
            Some(p) => members.contains(p),
        };
        let keep = if mirror_primary { None } else { prev };
        let rest = rest_of(l.displays, members);
        let sorted = sort_by_position(rest);
        let pr = place_rest(ms, sorted, l.layout_mode, keep)->0;
        let placed = pr.0;
        let spec_v = assemble_spec(ms, l.layout_mode, cand, scale, mirror_primary, placed, pr.1, pr.2, side);
        assert(spec_v == Ok::<LayoutView, LayoutErrorView>(v));
        let rest_primary = exists|k: int| 0 <= k < placed.len() && (#[trigger] placed[k]).primary;
        let gw: int = match l.layout_mode {
            LayoutMode::Logical => crate::layout::scaled(cand.width as int, scale as int) as int,
            LayoutMode::Physical => cand.width as int,
        };
        let gh: int = match l.layout_mode {
            LayoutMode::Logical => crate::layout::scaled(cand.height as int, scale as int) as int,
            LayoutMode::Physical => cand.height as int,
        };
        let height = match pr.2 {
            Some(h) => h,
            None => 0,
        };
        let pos: (int, int) = match side {
            Side::Left => (-gw, 0),
            Side::Right => (pr.1, 0),
            Side::Above => (0, -gh),
            Side::Below => (0, height),
        };
        let group = DisplayView {
            x: pos.0 as i32,
            y: pos.1 as i32,
            scale,
            transform: Transform::Normal,
            primary: mirror_primary || !rest_primary,
            monitors: group_assignments(ms, cand),
        };
        let w = LayoutView { layout_mode: l.layout_mode, displays: seq![group] + placed };
        assert(v == normalized(ms, w));
        let (ox, oy) = layout_origin(ms, w);
        assert(v.displays[0] == shifted_display(w.displays[0], ox, oy));
        assert(w.displays[0] == group);
        assert(normalize_fits(ms, w));
        let pred = |x: DisplayView| !touches_members(x, members);
        lemma_sort_by_position(rest);
        lemma_sort_elements(rest);
        lemma_place_rest_flat(ms, sorted, l.layout_mode, keep);
        assert forall|k: int| 0 <= k < placed.len() implies v.displays[k + 1] == shifted_display(
            #[trigger] placed[k],
            ox,
            oy,
        ) by {
            assert(w.displays[k + 1] == placed[k]);
            assert(v.displays[k + 1] == shifted_display(w.displays[k + 1], ox, oy));
        }
        assert(v.displays.len() == placed.len() + 1);
        assert forall|k: int| 1 <= k < v.displays.len() implies (#[trigger] v.displays[k]).y == -oy by {
            assert(v.displays[(k - 1) + 1] == shifted_display(placed[k - 1], ox, oy));
        }
        assert(v.displays[0].x == pos.0 - ox);
        assert(v.displays[0].y == pos.1 - oy);
        let wide = forall|t: int|
            0 <= t < l.displays.len() && !touches_members(l.displays[t], members) ==> #[trigger] has_width(
                ms,
                l.displays[t],
                l.layout_mode,
            );
        let tall = forall|t: int|
            0 <= t < l.displays.len() && !touches_members(l.displays[t], members) ==> #[trigger] has_height(
                ms,
                l.displays[t],
                l.layout_mode,
            );
        if wide {
            assert forall|k: int| 0 <= k < sorted.len() implies has_width(ms, #[trigger] sorted[k], l.layout_mode) by {
                assert(rest.contains(sorted[k]));
                l.displays.lemma_filter_contains_rev(pred, sorted[k]);
                let t = choose|t: int| 0 <= t < l.displays.len() && l.displays[t] == sorted[k];
                let r = choose|r: int| 0 <= r < rest.len() && rest[r] == sorted[k];
                l.displays.lemma_filter_pred(pred, r);
                assert(has_width(ms, l.displays[t], l.layout_mode));
            }
            lemma_place_rest_row(ms, sorted, l.layout_mode, keep);
            assert forall|k: int| 1 <= k < v.displays.len() implies (#[trigger] v.displays[k]).x == placed[k - 1].x - ox
                && 0 <= placed[k - 1].x < pr.1 by {
                assert(v.displays[(k - 1) + 1] == shifted_display(placed[k - 1], ox, oy));
            }
        }
        if tall {
            assert forall|k: int| 0 <= k < sorted.len() implies has_height(ms, #[trigger] sorted[k], l.layout_mode) by {
                assert(rest.contains(sorted[k]));
                l.displays.lemma_filter_contains_rev(pred, sorted[k]);
                let t = choose|t: int| 0 <= t < l.displays.len() && l.displays[t] == sorted[k];
                let r = choose|r: int| 0 <= r < rest.len() && rest[r] == sorted[k];
                l.displays.lemma_filter_pred(pred, r);
                assert(has_height(ms, l.displays[t], l.layout_mode));
            }
        }
    }
}

/// Connectors of a display's members, in order.
pub open spec fn group_connectors(d: DisplayView) -> Seq<Seq<char>> {
    d.monitors.map_values(|a: AssignmentView| a.connector)
}

/// A successful merge leaves a display whose members are, in order, the
/// monitors of the anchor's former group followed by the joining monitor
/// (which is not repeated when it was already there).
pub proof fn lemma_merge_group(
    ms: Seq<MonitorView>,
    l: LayoutView,
    anchor: Seq<char>,
    joining: Seq<char>,
    policy: crate::validation::ValidationPolicy,
)
    ensures
        merge_spec(ms, l, anchor, joining, policy) matches Ok(n) ==> exists|t: int|
            0 <= t < n.displays.len() && #[trigger] group_connectors(n.displays[t]) == merge_connectors(l, anchor, joining),
{
    if let Ok(n) = merge_spec(ms, l, anchor, joining, policy) {
        let cs = merge_connectors(l, anchor, joining);
        let lk = lookup_monitors(ms, cs);
        let cands = mirror_spec(lk)->Ok_0;
        let cand = cands[0];
        let w = merged_layout(ms, l, anchor, joining, cand)->0;
        assert(n == normalized(ms, w));
        let d1 = strip_member(l.displays, joining);
        let t = group_index(d1, anchor)->0;
        let tg = d1[t];
        let scale = if scale_listed(cand.common_scales, tg.scale as int) {
            tg.scale
        } else {
            fallback_scale(cand.common_scales)
        };
        let d2 = d1.update(t, DisplayView { monitors: group_assignments(ms, cand), scale, ..tg });
        assert(0 <= t < d1.len());
        assert(d2[t].monitors == group_assignments(ms, cand));
        assert(w.displays[t].monitors == group_assignments(ms, cand));
        let (ox, oy) = layout_origin(ms, w);
        assert(n.displays[t] == shifted_display(w.displays[t], ox, oy));
        crate::mirror::lemma_mirror_members(lk);
        assert(crate::mirror::members_match(lk, cand));
        assert(first_missing(ms, cs) is None);
        let conns = group_connectors(n.displays[t]);
        assert forall|i: int| 0 <= i < cs.len() implies #[trigger] conns[i] == cs[i] by {
            if find_monitor(ms, cs[i]) is None {
                crate::seqs::lemma_first_where_some(cs, |c: Seq<char>| find_monitor(ms, c) is None, i);
            }
            let k = find_monitor(ms, cs[i])->0;
            assert(crate::seqs::is_first(ms, crate::layout::connector_is(cs[i]), k));
            assert(lk[i] == ms[k]);
            assert(cand.members[i].connector == lk[i].identity.connector@);
        }
        assert(conns =~= cs);
    }
}

/// After a successful merge the joining monitor appears in exactly one
/// assignment of the layout.
pub proof fn lemma_merge_joining_once(
    ms: Seq<MonitorView>,
    l: LayoutView,
    anchor: Seq<char>,
    joining: Seq<char>,
    policy: crate::validation::ValidationPolicy,
)
    ensures
        merge_spec(ms, l, anchor, joining, policy) matches Ok(n) ==> {
            let f = crate::layout::enabled_of(n.displays);
            &&& exists|a: int| 0 <= a < f.len() && #[trigger] f[a] == joining
            &&& forall|a: int, b: int| 0 <= a < b < f.len() ==> !(#[trigger] f[a] == joining && #[trigger] f[b] == joining)
        },
{
    if let Ok(n) = merge_spec(ms, l, anchor, joining, policy) {
        let f = crate::layout::enabled_of(n.displays);
        lemma_merge_group(ms, l, anchor, joining, policy);
        lemma_merge_commits_valid(ms, l, anchor, joining, policy);
        let t = choose|t: int|
            0 <= t < n.displays.len() && #[trigger] group_connectors(n.displays[t]) == merge_connectors(l, anchor, joining);
        let cs = merge_connectors(l, anchor, joining);
        let g = l.displays[group_index(l.displays, anchor)->0];
        let gcs = g.monitors.map_values(|a: AssignmentView| a.connector);
        assert(cs.contains(joining)) by {
            if !gcs.contains(joining) {
                assert(cs[cs.len() - 1] == joining);
            }
        }
        let j = choose|j: int| 0 <= j < cs.len() && cs[j] == joining;
        assert(group_connectors(n.displays[t])[j] == n.displays[t].monitors[j].connector);
        crate::validation_laws::lemma_seen_is_prefix(n.displays, t, j);
        let pos = crate::layout::enabled_of(n.displays.take(t)).len() + j;
        assert(f[pos] == joining);
        crate::validation_laws::lemma_validate_repeated_monitor(ms, n, policy, joining);
        assert(!validate_spec(ms, n, policy).contains(ProblemView::MonitorInMultipleGroups { connector: joining }));
    }
}

} // verus!
