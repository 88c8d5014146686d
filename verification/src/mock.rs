//! An in-memory compositor: what it decides when monitors are hot-plugged
//! and when a configuration is applied. It validates like Mutter (serial
//! check plus the validation rule set) and updates its state on temporary
//! and persistent applies.
use vstd::prelude::*;
use crate::error::{BackendError, BackendErrorView, RejectionKind};
use crate::layout::{
    displays_view, monitors_view, primary_index, AssignmentView, DisplayLayout, DisplayView,
    LayoutView,
};
use crate::mode::{ModeView, MonitorMode};
use crate::monitor::{MonitorView, PhysicalMonitor};
use crate::seqs::{first_where, lemma_first_where_none, lemma_first_where_some};
use crate::state::{ApplyMethod, DisplayState};
use crate::validation::{
    auto_fixable, can_normalize, normalize, normalize_fits, normalized, policy_of, problem_text,
    problems_view, validate_spec, validate_with_policy, LayoutProblem, ProblemView, ValidationPolicy,
};

verus! {

/// Events emitted by a backend.
#[derive(Debug, Clone, Copy, PartialEq, Eq, Structural)]
pub enum BackendEvent {
    /// The compositor's monitor state changed (hot-plug, mode change, any
    /// applied configuration). Any previously held serial is now stale.
    MonitorsChanged,
}

/// The rejection kind the compositor reports for a problem.
pub open spec fn kind_of_problem(p: ProblemView) -> RejectionKind {
    match p {
        ProblemView::NotAdjacent => RejectionKind::NotAdjacent,
        ProblemView::Overlap { .. } => RejectionKind::Overlap,
        ProblemView::MultiplePrimary => RejectionKind::MultiplePrimary,
        ProblemView::MissingPrimary => RejectionKind::MissingPrimary,
        ProblemView::NoActiveDisplays => RejectionKind::MissingPrimary,
        ProblemView::UnsupportedScale { .. } => RejectionKind::InvalidScale,
        ProblemView::InvalidScale { .. } => RejectionKind::InvalidScale,
        ProblemView::UnknownMode { .. } => RejectionKind::InvalidMode,
        ProblemView::MirrorResolutionMismatch { .. } => RejectionKind::MirrorModesUnequal,
        ProblemView::UnknownConnector { .. } => RejectionKind::UnknownMonitor,
        ProblemView::NotNormalized { .. } => RejectionKind::BadPosition,
        _ => RejectionKind::Other,
    }
}

/// The rejection for the first problem that normalizing cannot fix.
pub open spec fn rejection_of(problems: Seq<ProblemView>) -> Option<BackendErrorView> {
    match first_where(problems, |p: ProblemView| !auto_fixable(p)) {
        Some(i) => Some(
            BackendErrorView::Rejected { kind: kind_of_problem(problems[i]), message: problem_text(problems[i]) },
        ),
        None => None,
    }
}

/// The rejection for the first problem that normalizing cannot fix, if any.
pub fn problems_to_error(problems: &[LayoutProblem]) -> (r: Option<BackendError>)
    ensures
        match rejection_of(problems_view(problems@)) {
            Some(e) => r matches Some(x) && x@ == e,
            None => r is None,
        },
{
    let ghost pv = problems_view(problems@);
    let mut i: usize = 0;
    while i < problems.len()
        invariant
            pv == problems_view(problems@),
            i <= pv.len(),
            forall|j: int| 0 <= j < i ==> auto_fixable(#[trigger] pv[j]),
        decreases pv.len() - i,
    {
        let p = &problems[i];
        assert(pv[i as int] == p@);
        if !p.is_auto_fixable() {
            proof {
                crate::seqs::lemma_first_where_at(pv, |p: ProblemView| !auto_fixable(p), i as int);
            }
            let kind = match p {
                LayoutProblem::NotAdjacent => RejectionKind::NotAdjacent,
                LayoutProblem::Overlap { .. } => RejectionKind::Overlap,
                LayoutProblem::MultiplePrimary => RejectionKind::MultiplePrimary,
                LayoutProblem::MissingPrimary => RejectionKind::MissingPrimary,
                LayoutProblem::NoActiveDisplays => RejectionKind::MissingPrimary,
                LayoutProblem::UnsupportedScale { .. } => RejectionKind::InvalidScale,
                LayoutProblem::InvalidScale { .. } => RejectionKind::InvalidScale,
                LayoutProblem::UnknownMode { .. } => RejectionKind::InvalidMode,
                LayoutProblem::MirrorResolutionMismatch { .. } => RejectionKind::MirrorModesUnequal,
                LayoutProblem::UnknownConnector { .. } => RejectionKind::UnknownMonitor,
                LayoutProblem::NotNormalized { .. } => RejectionKind::BadPosition,
                _ => RejectionKind::Other,
            };
            return Some(BackendError::Rejected { kind, message: p.message() });
        }
        i += 1;
    }
    proof {
        crate::seqs::lemma_first_where_none(pv, |p: ProblemView| !auto_fixable(p));
    }
    None
}

/// Connectors of the given monitors.
pub open spec fn connectors_of(ms: Seq<MonitorView>) -> Seq<Seq<char>> {
    ms.map_values(|m: MonitorView| m.identity.connector@)
}

/// A display keeping only the members on the given connectors.
pub open spec fn keep_members(d: DisplayView, cs: Seq<Seq<char>>) -> DisplayView {
    DisplayView { monitors: d.monitors.filter(|a: AssignmentView| cs.contains(a.connector)), ..d }
}

/// The displays after a hot-plug: vanished monitors are dropped, emptied
/// displays removed, and the first display made primary when none is.
pub open spec fn hotplug_displays(d: Seq<DisplayView>, cs: Seq<Seq<char>>) -> Seq<DisplayView> {
    let kept = d.map_values(|x: DisplayView| keep_members(x, cs)).filter(
        |x: DisplayView| x.monitors.len() > 0,
    );
    if primary_index(kept) is None && kept.len() > 0 {
        kept.update(0, DisplayView { primary: true, ..kept[0] })
    } else {
        kept
    }
}

fn keep_members_exec(v: &Vec<crate::layout::MonitorAssignment>, cs: &Vec<String>) -> (r: Vec<crate::layout::MonitorAssignment>)
    ensures
        crate::layout::assignments_view(r@) == crate::layout::assignments_view(v@).filter(
            |a: AssignmentView| cs@.map_values(|s: String| s@).contains(a.connector),
        ),
{
    let ghost csv = cs@.map_values(|s: String| s@);
    let ghost vv = crate::layout::assignments_view(v@);
    let ghost pred = |a: AssignmentView| csv.contains(a.connector);
    let mut out: Vec<crate::layout::MonitorAssignment> = Vec::new();
    let mut k: usize = 0;
    while k < v.len()
        invariant
            csv == cs@.map_values(|s: String| s@),
            vv == crate::layout::assignments_view(v@),
            pred == (|a: AssignmentView| csv.contains(a.connector)),
            k <= vv.len(),
            crate::layout::assignments_view(out@) == vv.take(k as int).filter(pred),
        decreases vv.len() - k,
    {
        let a = &v[k];
        assert(vv[k as int] == a@);
        proof {
            reveal(Seq::filter);
            let t1 = vv.take(k as int + 1);
            assert(t1.drop_last() =~= vv.take(k as int));
            assert(t1.last() == a@);
        }
        let mut found = false;
        let mut j: usize = 0;
        while j < cs.len()
            invariant
                csv == cs@.map_values(|s: String| s@),
                j <= csv.len(),
                found == exists|t: int| 0 <= t < j && csv[t] == a@.connector,
            decreases csv.len() - j,
        {
            assert(csv[j as int] == cs@[j as int]@);
            if crate::identity::str_eq(cs[j].as_str(), a.connector.as_str()) {
                found = true;
            }
            j += 1;
        }
        let ghost before = out@;
        if found {
            out.push(a.clone());
            assert(crate::layout::assignments_view(out@) =~= crate::layout::assignments_view(before).push(a@));
        }
        k += 1;
        assert(crate::layout::assignments_view(out@) =~= vv.take(k as int).filter(pred));
    }
    assert(vv.take(vv.len() as int) =~= vv);
    out
}

/// Replaces the connected monitors (a hot-plug): drops vanished monitors
/// from the layout, removes emptied displays, keeps a primary display, and
/// moves to the next serial.
pub fn hotplug(state: &mut DisplayState, monitors: Vec<PhysicalMonitor>)
    requires
        old(state).serial < u32::MAX,
    ensures
        final(state).monitors_v() == monitors_view(monitors@),
        final(state).serial == old(state).serial + 1,
        final(state).layout@ == (LayoutView {
            layout_mode: old(state).layout.layout_mode,
            displays: hotplug_displays(old(state).layout@.displays, connectors_of(monitors_view(monitors@))),
        }),
        final(state).supports_changing_layout_mode == old(state).supports_changing_layout_mode,
        final(state).global_scale_required == old(state).global_scale_required,
        final(state).supports_mirroring == old(state).supports_mirroring,
        final(state).extra@ == old(state).extra@,
{
    let ghost mv = monitors_view(monitors@);
    let mut cs: Vec<String> = Vec::new();
    let mut k: usize = 0;
    while k < monitors.len()
        invariant
            mv == monitors_view(monitors@),
            k <= mv.len(),
            cs@.map_values(|s: String| s@) == connectors_of(mv).take(k as int),
        decreases mv.len() - k,
    {
        assert(mv[k as int] == monitors@[k as int]@);
        let ghost before = cs@;
        cs.push(monitors[k].connector().clone());
        assert(cs@.map_values(|s: String| s@) =~= before.map_values(|s: String| s@).push(mv[k as int].identity.connector@));
        assert(connectors_of(mv).take(k as int + 1) =~= connectors_of(mv).take(k as int).push(connectors_of(mv)[k as int]));
        k += 1;
    }
    assert(connectors_of(mv).take(mv.len() as int) =~= connectors_of(mv));
    let ghost csv = connectors_of(mv);
    let ghost d = state.layout@.displays;
    let ghost mapped = d.map_values(|x: DisplayView| keep_members(x, csv));
    let ghost pred = |x: DisplayView| x.monitors.len() > 0;
    let mut kept: Vec<crate::layout::LogicalDisplay> = Vec::new();
    let mut i: usize = 0;
    while i < state.layout.logical_displays.len()
        invariant
            csv == cs@.map_values(|s: String| s@),
            d == state.layout@.displays,
            mapped == d.map_values(|x: DisplayView| keep_members(x, csv)),
            pred == (|x: DisplayView| x.monitors.len() > 0),
            i <= d.len(),
            displays_view(kept@) == mapped.take(i as int).filter(pred),
        decreases d.len() - i,
    {
        let g = &state.layout.logical_displays[i];
        assert(d[i as int] == g@);
        let nd = crate::layout::LogicalDisplay {
            x: g.x,
            y: g.y,
            scale: g.scale,
            transform: g.transform,
            primary: g.primary,
            monitors: keep_members_exec(&g.monitors, &cs),
        };
        assert(nd@ == mapped[i as int]);
        proof {
            reveal(Seq::filter);
            let t1 = mapped.take(i as int + 1);
            assert(t1.drop_last() =~= mapped.take(i as int));
            assert(t1.last() == nd@);
        }
        let ghost before = kept@;
        if nd.monitors.len() > 0 {
            kept.push(nd);
            assert(displays_view(kept@) =~= displays_view(before).push(mapped[i as int]));
        }
        i += 1;
        assert(displays_view(kept@) =~= mapped.take(i as int).filter(pred));
    }
    assert(mapped.take(d.len() as int) =~= mapped);
    let ghost kv = displays_view(kept@);
    let mut has_primary = false;
    let mut j: usize = 0;
    while j < kept.len()
        invariant
            kv == displays_view(kept@),
            j <= kv.len(),
            has_primary == exists|t: int| 0 <= t < j && (#[trigger] kv[t]).primary,
        decreases kv.len() - j,
    {
        assert(kv[j as int] == kept@[j as int]@);
        if kept[j].primary {
            has_primary = true;
        }
        j += 1;
    }
    proof {
        if has_primary {
            let t = choose|t: int| 0 <= t < kv.len() && (#[trigger] kv[t]).primary;
            crate::seqs::lemma_first_where_some(kv, |x: DisplayView| x.primary, t);
        } else {
            crate::seqs::lemma_first_where_none(kv, |x: DisplayView| x.primary);
        }
    }
    if !has_primary && kept.len() > 0 {
        let mut first = kept[0].clone();
        first.primary = true;
        kept.set(0, first);
        assert(displays_view(kept@) =~= kv.update(0, DisplayView { primary: true, ..kv[0] }));
    }
    state.monitors = monitors;
    state.layout.logical_displays = kept;
    state.serial = state.serial + 1;
}

/// The mode ID assigned to connector `c`: the first assignment on it, in
/// display order.
pub open spec fn assigned_mode_id(d: Seq<DisplayView>, c: Seq<char>) -> Option<Seq<char>> {
    let all = crate::layout::assignments_of(d);
    match first_where(all, |a: AssignmentView| a.connector == c) {
        Some(k) => Some(all[k].mode_id),
        None => None,
    }
}

/// A monitor with its current-mode flags set from the layout.
pub open spec fn with_current(m: MonitorView, d: Seq<DisplayView>) -> MonitorView {
    let id = assigned_mode_id(d, m.identity.connector@);
    MonitorView {
        modes: m.modes.map_values(
            |x: ModeView| ModeView { is_current: id == Some(x.id), ..x },
        ),
        ..m
    }
}

/// Whether an apply passes the serial check and validation.
pub open spec fn apply_rejection(s: DisplayState, serial: u32, l: LayoutView) -> Option<BackendErrorView> {
    if serial != s.serial {
        Some(
            BackendErrorView::Rejected {
                kind: RejectionKind::StaleSerial,
                message: "The requested configuration is based on stale information"@,
            },
        )
    } else {
        rejection_of(validate_spec(s.monitors_v(), l, policy_of(s)))
    }
}

fn mark_current(m: &mut PhysicalMonitor, layout: &DisplayLayout)
    ensures
        final(m)@ == with_current(old(m)@, layout@.displays),
{
    let id = crate::layout::assigned_mode_id_exec(layout, m.connector().as_str());
    let ghost idv = match &id {
        Some(s) => Some(s@),
        None => None,
    };
    assert(idv == assigned_mode_id(layout@.displays, old(m)@.identity.connector@));
    let ghost mv0 = old(m)@.modes;
    let mut k: usize = 0;
    while k < m.modes.len()
        invariant
            idv == match &id {
                Some(s) => Some(s@),
                None => None,
            },
            k <= m.modes@.len(),
            m.modes@.len() == mv0.len(),
            m.identity == old(m).identity,
            m@ == (MonitorView { modes: m@.modes, ..old(m)@ }),
            forall|t: int|
                0 <= t < mv0.len() ==> #[trigger] m@.modes[t] == if t < k {
                    ModeView { is_current: idv == Some(mv0[t].id), ..mv0[t] }
                } else {
                    mv0[t]
                },
        decreases m.modes@.len() - k,
    {
        let ghost prev = m.modes@;
        let ghost prev_view = m@.modes;
        assert(m@.modes[k as int] == m.modes@[k as int]@);
        let mut md = m.modes[k].clone();
        assert(md@ == mv0[k as int]);
        md.is_current = match &id {
            Some(s) => crate::identity::str_eq(s.as_str(), md.id.as_str()),
            None => false,
        };
        let ghost md_final = md;
        assert(md@ == ModeView { is_current: idv == Some(mv0[k as int].id), ..mv0[k as int] });
        m.modes.set(k, md);
        assert forall|t: int| 0 <= t < mv0.len() implies #[trigger] m@.modes[t] == if t < k + 1 {
            ModeView { is_current: idv == Some(mv0[t].id), ..mv0[t] }
        } else {
            mv0[t]
        } by {
            if t != k {
                assert(m.modes@[t] == prev[t]);
                assert(m@.modes[t] == m.modes@[t]@);
                assert(prev_view[t] == prev[t]@);
            } else {
                assert(m.modes@[t] == md_final);
                assert(m@.modes[t] == md_final@);
            }
        }
        k += 1;
    }
    assert(m@.modes =~= with_current(old(m)@, layout@.displays).modes);
}

/// Why the in-memory compositor would refuse to apply `layout` against
/// `serial`, or `None` when it would accept it.
pub fn apply_rejection_for(state: &DisplayState, serial: u32, layout: &DisplayLayout) -> (r: Option<BackendError>)
    ensures
        match (r, apply_rejection(*state, serial, layout@)) {
            (None, None) => true,
            (Some(e), Some(v)) => e@ == v,
            _ => false,
        },
{
    if serial != state.serial {
        let mut message = String::new();
        crate::text::push_str(&mut message, "The requested configuration is based on stale information");
        return Some(BackendError::Rejected { kind: RejectionKind::StaleSerial, message });
    }
    let problems = validate_with_policy(state.monitors.as_slice(), layout, ValidationPolicy::from_state(state));
    problems_to_error(problems.as_slice())
}

/// Applies a configuration to the in-memory compositor: a stale serial or
/// a layout with a problem that normalizing cannot fix is rejected and
/// changes nothing; a verify-only apply changes nothing; otherwise the
/// normalized layout becomes current, each monitor's current mode follows
/// it, and the serial advances.
pub fn mock_apply(state: &mut DisplayState, serial: u32, layout: &DisplayLayout, method: ApplyMethod) -> (r: Result<(), BackendError>)
    requires
        (apply_rejection(*old(state), serial, layout@) is None && method != ApplyMethod::Verify) ==> (
            old(state).serial < u32::MAX && normalize_fits(old(state).monitors_v(), layout@)),
    ensures
        match apply_rejection(*old(state), serial, layout@) {
            Some(e) => r matches Err(x) && x@ == e && final(state).serial == old(state).serial
                && final(state).layout@ == old(state).layout@ && final(state).monitors_v() == old(
                state,
            ).monitors_v(),
            None => r is Ok && if method == ApplyMethod::Verify {
                final(state).serial == old(state).serial && final(state).layout@ == old(state).layout@
                    && final(state).monitors_v() == old(state).monitors_v()
            } else {
                let l = normalized(old(state).monitors_v(), layout@);
                &&& final(state).serial == old(state).serial + 1
                &&& final(state).layout@ == l
                &&& final(state).monitors_v() == old(state).monitors_v().map_values(
                    |m: MonitorView| with_current(m, l.displays),
                )
            },
        },
        final(state).supports_changing_layout_mode == old(state).supports_changing_layout_mode,
        final(state).global_scale_required == old(state).global_scale_required,
        final(state).supports_mirroring == old(state).supports_mirroring,
{
    if serial != state.serial {
        let mut message = String::new();
        crate::text::push_str(&mut message, "The requested configuration is based on stale information");
        return Err(BackendError::Rejected { kind: RejectionKind::StaleSerial, message });
    }
    let problems = validate_with_policy(state.monitors.as_slice(), layout, ValidationPolicy::from_state(state));
    match problems_to_error(problems.as_slice()) {
        Some(e) => {
            return Err(e);
        },
        None => {},
    }
    if method == ApplyMethod::Verify {
        return Ok(());
    }
    let mut l = layout.clone();
    normalize(&mut l, state.monitors.as_slice());
    let ghost lv = l@;
    let ghost mv0 = state.monitors_v();
    let mut k: usize = 0;
    while k < state.monitors.len()
        invariant
            k <= state.monitors@.len(),
            state.monitors@.len() == mv0.len(),
            lv == l@,
            state.serial == old(state).serial,
            state.supports_changing_layout_mode == old(state).supports_changing_layout_mode,
            state.global_scale_required == old(state).global_scale_required,
            state.supports_mirroring == old(state).supports_mirroring,
            forall|t: int|
                0 <= t < mv0.len() ==> #[trigger] state.monitors@[t]@ == if t < k {
                    with_current(mv0[t], lv.displays)
                } else {
                    mv0[t]
                },
        decreases state.monitors@.len() - k,
    {
        let ghost prev = state.monitors@;
        let mut m = state.monitors[k].clone();
        assert(m@ == mv0[k as int]);
        mark_current(&mut m, &l);
        state.monitors.set(k, m);
        assert forall|t: int| 0 <= t < mv0.len() implies #[trigger] state.monitors@[t]@ == if t < k + 1 {
            with_current(mv0[t], lv.displays)
        } else {
            mv0[t]
        } by {
            if t != k {
                assert(state.monitors@[t] == prev[t]);
            }
        }
        k += 1;
    }
    assert(state.monitors_v() =~= mv0.map_values(|m: MonitorView| with_current(m, lv.displays)));
    state.layout = l;
    state.serial = state.serial + 1;
    Ok(())
}

/// An apply based on another serial is rejected as stale. With the current
/// serial it is rejected exactly when validation reports a problem that
/// normalizing cannot fix; an accepted layout, once normalized (as the
/// compositor stores it), validates without any problem.
pub proof fn lemma_apply_law(s: DisplayState, serial: u32, l: LayoutView)
    ensures
        serial != s.serial ==> (apply_rejection(s, serial, l) matches Some(BackendErrorView::Rejected { kind, .. })
            && kind == RejectionKind::StaleSerial),
        serial == s.serial ==> (apply_rejection(s, serial, l) is None <==> forall|k: int|
            0 <= k < validate_spec(s.monitors_v(), l, policy_of(s)).len() ==> auto_fixable(
                #[trigger] validate_spec(s.monitors_v(), l, policy_of(s))[k],
            )),
        serial == s.serial && apply_rejection(s, serial, l) is None && normalize_fits(s.monitors_v(), l)
            ==> validate_spec(s.monitors_v(), normalized(s.monitors_v(), l), policy_of(s)) == Seq::<ProblemView>::empty(),
{
    let ms = s.monitors_v();
    let pol = policy_of(s);
    let v = validate_spec(ms, l, pol);
    if serial == s.serial {
        assert(apply_rejection(s, serial, l) == rejection_of(v));
        if forall|k: int| 0 <= k < v.len() ==> auto_fixable(#[trigger] v[k]) {
            lemma_first_where_none(v, |p: ProblemView| !auto_fixable(p));
            if normalize_fits(ms, l) {
                let n = normalized(ms, l);
                let vn = validate_spec(ms, n, pol);
                crate::normalization::lemma_normalize_fixes_origin(ms, l, pol);
                assert forall|k: int| 0 <= k < vn.len() implies auto_fixable(#[trigger] vn[k]) by {
                    assert(v[k] == vn[k]);
                }
                if n.displays.len() > 0 {
                    crate::validation_laws::lemma_not_normalized_only_from_origin(ms, n, pol);
                    if vn.len() > 0 {
                        assert(auto_fixable(vn[0]));
                    }
                } else {
                    assert(l.displays.len() == 0);
                    assert(v[0] == ProblemView::NoActiveDisplays);
                }
            }
        } else {
            let k = choose|k: int| 0 <= k < v.len() && !auto_fixable(#[trigger] v[k]);
            lemma_first_where_some(v, |p: ProblemView| !auto_fixable(p), k);
        }
    }
}

} // verus!
