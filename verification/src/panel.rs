//! The choices the settings panel offers for the selected display: the
//! displays it can be mirrored with, its resolutions and its refresh rates,
//! each with the label shown and the entry that starts out selected.
use vstd::prelude::*;
use crate::identity::str_eq;
use crate::layout::{
    disabled_of, find_monitor, mode_size_of, monitors_view, AssignmentView, DisplayLayout, DisplayView,
    LayoutView, LogicalDisplay,
};
use crate::mirror::{mirror_candidates, mirror_spec, monitor_refs_view, CandidateView};
use crate::mode::{aspect_label, aspect_ratio_label, format_refresh, refresh_text, ModeView, MonitorMode};
use crate::monitor::{rates_order_upto, resolutions_upto, MonitorView, PhysicalMonitor};
use crate::prefs::{AppPrefs, MonitorPrefsView};
use crate::seqs::{first_where, lemma_first_where_at, lemma_first_where_none};
use crate::state::DisplayState;
use crate::text::{int_string, int_text, push_str};
use crate::ui_state::{name_of, shown_name};

verus! {

/// Connectors of a display's members, in order.
pub open spec fn display_connectors(d: DisplayView) -> Seq<Seq<char>> {
    d.monitors.map_values(|a: AssignmentView| a.connector)
}

/// Connectors of the members of the first `n` displays other than display
/// `index`.
pub open spec fn other_connectors(ds: Seq<DisplayView>, index: int, n: int) -> Seq<Seq<char>>
    decreases n,
{
    if n <= 0 {
        Seq::empty()
    } else {
        other_connectors(ds, index, n - 1) + if n - 1 == index {
            Seq::empty()
        } else {
            display_connectors(ds[n - 1])
        }
    }
}

/// Connectors that can join display `index` as mirror partners: the
/// members of every other display, then the disabled monitors.
pub open spec fn partner_connectors(ms: Seq<MonitorView>, l: LayoutView, index: int) -> Seq<Seq<char>> {
    other_connectors(l.displays, index, l.displays.len() as int) + disabled_of(
        ms,
        l.displays,
        ms.len() as int,
    ).map_values(|k: int| ms[k].identity.connector@)
}

/// `Name (connector)`, as a mirror partner is listed.
pub open spec fn partner_label(
    state: &DisplayState,
    prefs: Map<Seq<char>, MonitorPrefsView>,
    connector: Seq<char>,
) -> Seq<char> {
    shown_name(Some(state), prefs, connector) + " ("@ + connector + ")"@
}

/// The monitors of a display's members that are connected, in order.
pub open spec fn member_monitors(ms: Seq<MonitorView>, members: Seq<AssignmentView>) -> Seq<MonitorView>
    decreases members.len(),
{
    if members.len() == 0 {
        Seq::empty()
    } else {
        let prev = member_monitors(ms, members.drop_last());
        match find_monitor(ms, members.last().connector) {
            Some(i) => prev.push(ms[i]),
            None => prev,
        }
    }
}

/// Resolutions offered for a display: those common to all members of a
/// mirror group (none when they share none), else those of its monitor.
pub open spec fn resolution_choices_spec(ms: Seq<MonitorView>, d: DisplayView) -> Seq<(i32, i32)> {
    if d.monitors.len() > 1 {
        match mirror_spec(member_monitors(ms, d.monitors)) {
            Ok(cs) => cs.map_values(|c: CandidateView| (c.width, c.height)),
            Err(_) => Seq::empty(),
        }
    } else if d.monitors.len() == 1 {
        match find_monitor(ms, d.monitors[0].connector) {
            Some(i) => resolutions_upto(ms[i].modes, ms[i].modes.len() as int),
            None => Seq::empty(),
        }
    } else {
        Seq::empty()
    }
}

/// `W × H`, followed by the aspect ratio in brackets where it has a name.
pub open spec fn resolution_label_text(w: i32, h: i32) -> Seq<char> {
    int_text(w as int) + " × "@ + int_text(h as int) + match aspect_label(w as int, h as int) {
        Some(r) => " ("@ + r + ")"@,
        None => Seq::empty(),
    }
}

/// The refresh rate of a mode as listed: variable-rate modes show the
/// rate they reach.
pub open spec fn refresh_label_text(m: ModeView) -> Seq<char> {
    if m.refresh_rate_mode == Some("variable"@) {
        "Variable (up to "@ + refresh_text(m.refresh as int) + ")"@
    } else {
        refresh_text(m.refresh as int)
    }
}

/// The refresh modes offered for a single (unmirrored) display: the
/// distinct rates at its current size, when there is more than one.
pub open spec fn refresh_choices_spec(ms: Seq<MonitorView>, d: DisplayView) -> Seq<ModeView> {
    if d.monitors.len() == 1 {
        match (mode_size_of(ms, d.monitors), find_monitor(ms, d.monitors[0].connector)) {
            (Some((w, h)), Some(i)) => {
                let modes = ms[i].modes;
                let order = rates_order_upto(modes, w, h, modes.len() as int);
                if order.len() > 1 {
                    order.map_values(|k: int| modes[k])
                } else {
                    Seq::empty()
                }
            },
            _ => Seq::empty(),
        }
    } else {
        Seq::empty()
    }
}

/// Everything the panel offers for one display.
#[derive(Debug)]
pub struct PanelChoices {
    /// Displays that can be mirrored with this one: connector and label.
    pub mirror_partners: Vec<(String, String)>,
    pub resolutions: Vec<(i32, i32)>,
    pub resolution_labels: Vec<String>,
    /// The entry of `resolutions` matching the display's current size.
    pub selected_resolution: Option<usize>,
    /// Mode IDs of the refresh rates offered.
    pub refresh_modes: Vec<String>,
    pub refresh_labels: Vec<String>,
    /// The entry of `refresh_modes` that is the member's current mode.
    pub selected_refresh: Option<usize>,
}

/// The size is `x`.
pub open spec fn size_is(x: (i32, i32)) -> spec_fn((i32, i32)) -> bool {
    |y: (i32, i32)| y == x
}

/// The mode has ID `id`.
pub open spec fn mode_id_is(id: Seq<char>) -> spec_fn(ModeView) -> bool {
    |m: ModeView| m.id == id
}

/// The position of `r` in `rs`.
pub open spec fn index_of_size(rs: Seq<(i32, i32)>, r: Option<(i32, i32)>) -> Option<int> {
    match r {
        Some(x) => first_where(rs, size_is(x)),
        None => None,
    }
}

/// The position of the mode with ID `id` in `modes`.
pub open spec fn index_of_mode(modes: Seq<ModeView>, id: Seq<char>) -> Option<int> {
    first_where(modes, mode_id_is(id))
}

/// What `panel_choices` gives for display `index`.
pub open spec fn panel_choices_holds(
    state: &DisplayState,
    l: LayoutView,
    prefs: Map<Seq<char>, MonitorPrefsView>,
    index: int,
    r: PanelChoices,
) -> bool {
    let ms = monitors_view(state.monitors@);
    let d = l.displays[index];
    let pc = partner_connectors(ms, l, index);
    let res = resolution_choices_spec(ms, d);
    let rm = refresh_choices_spec(ms, d);
    &&& r.mirror_partners@.len() == pc.len()
    &&& forall|k: int|
        0 <= k < pc.len() ==> (#[trigger] r.mirror_partners@[k]).0@ == pc[k] && r.mirror_partners@[k].1@
            == partner_label(state, prefs, pc[k])
    &&& r.resolutions@ == res
    &&& r.resolution_labels@.len() == res.len()
    &&& forall|k: int|
        0 <= k < res.len() ==> (#[trigger] r.resolution_labels@[k])@ == resolution_label_text(res[k].0, res[k].1)
    &&& match index_of_size(res, mode_size_of(ms, d.monitors)) {
        Some(k) => r.selected_resolution == Some(k as usize),
        None => r.selected_resolution is None,
    }
    &&& r.refresh_modes@.len() == rm.len()
    &&& r.refresh_labels@.len() == rm.len()
    &&& forall|k: int|
        0 <= k < rm.len() ==> (#[trigger] r.refresh_modes@[k])@ == rm[k].id && r.refresh_labels@[k]@
            == refresh_label_text(rm[k])
    &&& match (rm.len() > 0, index_of_mode(rm, d.monitors[0].mode_id)) {
        (true, Some(k)) => r.selected_refresh == Some(k as usize),
        _ => r.selected_refresh is None,
    }
}

/// Label for a resolution.
pub fn resolution_label(w: i32, h: i32) -> (r: String)
    ensures
        r@ == resolution_label_text(w, h),
{
    let mut s = int_string(w as i64);
    proof {
        reveal_strlit(" × ");
        reveal_strlit(" (");
        reveal_strlit(")");
    }
    push_str(&mut s, " × ");
    let hs = int_string(h as i64);
    push_str(&mut s, hs.as_str());
    match aspect_ratio_label(w, h) {
        Some(ratio) => {
            push_str(&mut s, " (");
            push_str(&mut s, ratio);
            push_str(&mut s, ")");
        },
        None => {},
    }
    assert(s@ =~= resolution_label_text(w, h));
    s
}

/// Whether a mode adjusts its refresh rate (`refresh-rate-mode` is
/// `variable`).
fn is_variable(m: &MonitorMode) -> (r: bool)
    ensures
        r == (m@.refresh_rate_mode == Some("variable"@)),
{
    match &m.refresh_rate_mode {
        Some(v) => str_eq(v.as_str(), "variable"),
        None => false,
    }
}

/// Label for a refresh mode.
pub fn refresh_label(m: &MonitorMode) -> (r: String)
    ensures
        r@ == refresh_label_text(m@),
{
    let rate = format_refresh(m.refresh_micro_hz);
    if is_variable(m) {
        let mut s = String::new();
        proof {
            reveal_strlit("Variable (up to ");
            reveal_strlit(")");
        }
        push_str(&mut s, "Variable (up to ");
        push_str(&mut s, rate.as_str());
        push_str(&mut s, ")");
        assert(s@ =~= refresh_label_text(m@));
        s
    } else {
        rate
    }
}

/// Mirror partners of display `index`, with their labels.
fn mirror_partners(state: &DisplayState, layout: &DisplayLayout, prefs: &AppPrefs, index: usize) -> (r: Vec<(String, String)>)
    requires
        prefs.wf(),
    ensures
        ({
            let pc = partner_connectors(monitors_view(state.monitors@), layout@, index as int);
            &&& r@.len() == pc.len()
            &&& forall|k: int|
                0 <= k < pc.len() ==> (#[trigger] r@[k]).0@ == pc[k] && r@[k].1@ == partner_label(
                    state,
                    prefs.map(),
                    pc[k],
                )
        }),
{
    let ghost ms = monitors_view(state.monitors@);
    let ghost ds = layout@.displays;
    let mut out: Vec<(String, String)> = Vec::new();
    proof {
        reveal_strlit(" (");
        reveal_strlit(")");
    }
    let mut d: usize = 0;
    while d < layout.logical_displays.len()
        invariant
            prefs.wf(),
            ds == layout@.displays,
            d <= ds.len(),
            out@.len() == other_connectors(ds, index as int, d as int).len(),
            forall|k: int|
                0 <= k < out@.len() ==> (#[trigger] out@[k]).0@ == other_connectors(ds, index as int, d as int)[k]
                    && out@[k].1@ == partner_label(state, prefs.map(), other_connectors(ds, index as int, d as int)[k]),
        decreases ds.len() - d,
    {
        let ghost prev = other_connectors(ds, index as int, d as int);
        if d != index {
            let ms_d = &layout.logical_displays[d].monitors;
            let ghost dc = display_connectors(ds[d as int]);
            assert(ds[d as int] == layout.logical_displays@[d as int]@);
            let mut a: usize = 0;
            while a < ms_d.len()
                invariant
                    prefs.wf(),
                    dc.len() == ms_d@.len(),
                    forall|t: int| 0 <= t < dc.len() ==> #[trigger] dc[t] == ms_d@[t].connector@,
                    a <= ms_d@.len(),
                    out@.len() == prev.len() + a,
                    forall|k: int|
                        0 <= k < out@.len() ==> (#[trigger] out@[k]).0@ == (prev + dc)[k] && out@[k].1@
                            == partner_label(state, prefs.map(), (prev + dc)[k]),
                decreases ms_d@.len() - a,
            {
                let c = ms_d[a].connector.clone();
                let mut label = name_of(Some(state), prefs, c.as_str());
                push_str(&mut label, " (");
                push_str(&mut label, c.as_str());
                push_str(&mut label, ")");
                assert((prev + dc)[prev.len() + a] == dc[a as int]);
                out.push((c, label));
                a += 1;
            }
            assert(other_connectors(ds, index as int, d as int + 1) =~= prev + dc);
        } else {
            assert(other_connectors(ds, index as int, d as int + 1) =~= prev);
        }
        d += 1;
    }
    let ghost oc = other_connectors(ds, index as int, ds.len() as int);
    let ghost idx = disabled_of(ms, ds, ms.len() as int);
    let ghost dcs = idx.map_values(|k: int| ms[k].identity.connector@);
    proof {
        crate::layout::lemma_disabled_in_range(ms, ds, ms.len() as int);
    }
    let dis = layout.disabled_monitors(state.monitors.as_slice());
    let mut t: usize = 0;
    while t < dis.len()
        invariant
            prefs.wf(),
            dis@.len() == idx.len(),
            forall|k: int| 0 <= k < idx.len() ==> (#[trigger] dis@[k])@ == state.monitors@[idx[k]]@,
            forall|k: int| 0 <= k < idx.len() ==> 0 <= #[trigger] idx[k] < ms.len(),
            ms == monitors_view(state.monitors@),
            dcs == idx.map_values(|k: int| ms[k].identity.connector@),
            t <= idx.len(),
            out@.len() == oc.len() + t,
            forall|k: int|
                0 <= k < out@.len() ==> (#[trigger] out@[k]).0@ == (oc + dcs)[k] && out@[k].1@ == partner_label(
                    state,
                    prefs.map(),
                    (oc + dcs)[k],
                ),
        decreases idx.len() - t,
    {
        let mon = dis[t];
        let cref = mon.connector();
        let c = cref.clone();
        assert(ms[idx[t as int]] == state.monitors@[idx[t as int]]@);
        assert(mon@ == ms[idx[t as int]]);
        assert(mon@.identity.connector@ == mon.identity.connector@);
        assert(dcs[t as int] == ms[idx[t as int]].identity.connector@);
        assert(cref@ == mon.identity.connector@);
        assert(c@ == cref@);
        assert(dcs[t as int] == c@);
        let mut label = name_of(Some(state), prefs, c.as_str());
        push_str(&mut label, " (");
        push_str(&mut label, c.as_str());
        push_str(&mut label, ")");
        assert((oc + dcs)[oc.len() + t] == dcs[t as int]);
        out.push((c, label));
        t += 1;
    }
    out
}

/// Connected monitors of a display's members, in order.
fn member_refs<'a>(state: &'a DisplayState, d: &LogicalDisplay) -> (r: Vec<&'a PhysicalMonitor>)
    ensures
        monitor_refs_view(r@) == member_monitors(monitors_view(state.monitors@), d@.monitors),
{
    let ghost ms = monitors_view(state.monitors@);
    let ghost mv = d@.monitors;
    let mut out: Vec<&PhysicalMonitor> = Vec::new();
    let mut a: usize = 0;
    while a < d.monitors.len()
        invariant
            mv == d@.monitors,
            ms == monitors_view(state.monitors@),
            a <= mv.len(),
            monitor_refs_view(out@) == member_monitors(ms, mv.take(a as int)),
        decreases mv.len() - a,
    {
        assert(mv.take(a as int + 1).drop_last() =~= mv.take(a as int));
        assert(mv[a as int] == d.monitors@[a as int]@);
        let ghost before = out@;
        match state.monitor(d.monitors[a].connector.as_str()) {
            Some(m) => {
                out.push(m);
                assert(monitor_refs_view(out@) =~= monitor_refs_view(before).push(m@));
            },
            None => {},
        }
        a += 1;
    }
    assert(mv.take(mv.len() as int) =~= mv);
    out
}

/// Resolutions offered for display `d`.
fn resolution_choices(state: &DisplayState, d: &LogicalDisplay) -> (r: Vec<(i32, i32)>)
    ensures
        r@ == resolution_choices_spec(monitors_view(state.monitors@), d@),
{
    let ghost ms = monitors_view(state.monitors@);
    if d.monitors.len() > 1 {
        let members = member_refs(state, d);
        match mirror_candidates(members.as_slice()) {
            Ok(cs) => {
                let ghost cv = crate::mirror::candidates_view(cs@);
                let mut out: Vec<(i32, i32)> = Vec::new();
                let mut k: usize = 0;
                while k < cs.len()
                    invariant
                        cv == crate::mirror::candidates_view(cs@),
                        k <= cs@.len(),
                        out@ == cv.take(k as int).map_values(|c: CandidateView| (c.width, c.height)),
                    decreases cs@.len() - k,
                {
                    assert(cv[k as int] == cs@[k as int]@);
                    out.push((cs[k].width, cs[k].height));
                    assert(cv.take(k as int + 1) =~= cv.take(k as int).push(cv[k as int]));
                    assert(out@ =~= cv.take(k as int + 1).map_values(|c: CandidateView| (c.width, c.height)));
                    k += 1;
                }
                assert(cv.take(cv.len() as int) =~= cv);
                out
            },
            Err(_) => Vec::new(),
        }
    } else if d.monitors.len() == 1 {
        assert(d@.monitors[0] == d.monitors@[0]@);
        match state.monitor(d.monitors[0].connector.as_str()) {
            Some(m) => m.resolutions(),
            None => Vec::new(),
        }
    } else {
        Vec::new()
    }
}

/// Refresh modes offered for display `d`.
fn refresh_choices<'a>(state: &'a DisplayState, d: &LogicalDisplay) -> (r: Vec<&'a MonitorMode>)
    ensures
        r@.len() == refresh_choices_spec(monitors_view(state.monitors@), d@).len(),
        forall|k: int|
            0 <= k < r@.len() ==> (#[trigger] r@[k])@ == refresh_choices_spec(monitors_view(state.monitors@), d@)[k],
{
    if d.monitors.len() != 1 {
        return Vec::new();
    }
    assert(d@.monitors[0] == d.monitors@[0]@);
    let size = d.mode_size(state.monitors.as_slice());
    let mon = state.monitor(d.monitors[0].connector.as_str());
    match (size, mon) {
        (Some((w, h)), Some(m)) => {
            let modes = m.refresh_rates_at(w, h);
            if modes.len() > 1 {
                modes
            } else {
                Vec::new()
            }
        },
        _ => Vec::new(),
    }
}

/// Views of a list of mode references.
pub open spec fn mode_refs_view(s: Seq<&MonitorMode>) -> Seq<ModeView> {
    s.map_values(|m: &MonitorMode| m@)
}

/// Position of size `x` in `rs`.
fn find_size(rs: &Vec<(i32, i32)>, x: (i32, i32)) -> (r: Option<usize>)
    ensures
        match first_where(rs@, size_is(x)) {
            None => r is None,
            Some(i) => r is Some && r->0 as int == i,
        },
{
    let mut t: usize = 0;
    while t < rs.len()
        invariant
            t <= rs@.len(),
            forall|u: int| 0 <= u < t ==> !size_is(x)(#[trigger] rs@[u]),
        decreases rs@.len() - t,
    {
        if rs[t].0 == x.0 && rs[t].1 == x.1 {
            proof {
                lemma_first_where_at(rs@, size_is(x), t as int);
            }
            return Some(t);
        }
        t += 1;
    }
    proof {
        lemma_first_where_none(rs@, size_is(x));
    }
    None
}

/// Position of the mode with ID `id` in `modes`.
fn find_mode_id(modes: &Vec<&MonitorMode>, id: &str) -> (r: Option<usize>)
    ensures
        match first_where(mode_refs_view(modes@), mode_id_is(id@)) {
            None => r is None,
            Some(i) => r is Some && r->0 as int == i,
        },
{
    let ghost mv = mode_refs_view(modes@);
    let mut t: usize = 0;
    while t < modes.len()
        invariant
            mv == mode_refs_view(modes@),
            t <= mv.len(),
            forall|u: int| 0 <= u < t ==> !mode_id_is(id@)(#[trigger] mv[u]),
        decreases mv.len() - t,
    {
        assert(mv[t as int] == modes@[t as int]@);
        if str_eq(modes[t].id.as_str(), id) {
            proof {
                lemma_first_where_at(mv, mode_id_is(id@), t as int);
            }
            return Some(t);
        }
        t += 1;
    }
    proof {
        lemma_first_where_none(mv, mode_id_is(id@));
    }
    None
}

/// The choices the panel offers for display `index` of the edited
/// layout: mirror partners, resolutions and refresh rates, with labels
/// and the entries that start out selected.
pub fn panel_choices(state: &DisplayState, layout: &DisplayLayout, prefs: &AppPrefs, index: usize) -> (r: PanelChoices)
    requires
        prefs.wf(),
        index < layout@.displays.len(),
    ensures
        panel_choices_holds(state, layout@, prefs.map(), index as int, r),
{
    let ghost ms = monitors_view(state.monitors@);
    let d = &layout.logical_displays[index];
    assert(d@ == layout@.displays[index as int]);
    let mirror_partners = mirror_partners(state, layout, prefs, index);
    let resolutions = resolution_choices(state, d);
    let ghost res = resolutions@;
    let mut resolution_labels: Vec<String> = Vec::new();
    let mut k: usize = 0;
    while k < resolutions.len()
        invariant
            res == resolutions@,
            k <= res.len(),
            resolution_labels@.len() == k,
            forall|t: int| 0 <= t < k ==> (#[trigger] resolution_labels@[t])@ == resolution_label_text(res[t].0, res[t].1),
        decreases res.len() - k,
    {
        let (w, h) = resolutions[k];
        resolution_labels.push(resolution_label(w, h));
        k += 1;
    }
    let size = d.mode_size(state.monitors.as_slice());
    let selected_resolution = match size {
        Some(x) => find_size(&resolutions, x),
        None => None,
    };
    let modes = refresh_choices(state, d);
    let ghost rm = refresh_choices_spec(ms, d@);
    let mut refresh_modes: Vec<String> = Vec::new();
    let mut refresh_labels: Vec<String> = Vec::new();
    let mut k: usize = 0;
    while k < modes.len()
        invariant
            modes@.len() == rm.len(),
            forall|t: int| 0 <= t < rm.len() ==> (#[trigger] modes@[t])@ == rm[t],
            k <= rm.len(),
            refresh_modes@.len() == k,
            refresh_labels@.len() == k,
            forall|t: int|
                0 <= t < k ==> (#[trigger] refresh_modes@[t])@ == rm[t].id && refresh_labels@[t]@ == refresh_label_text(rm[t]),
        decreases rm.len() - k,
    {
        let m = modes[k];
        assert(m@ == rm[k as int]);
        let id = m.id.clone();
        let label = refresh_label(m);
        assert(id@ == rm[k as int].id);
        let ghost pm = refresh_modes@;
        let ghost pl = refresh_labels@;
        refresh_modes.push(id);
        refresh_labels.push(label);
        assert forall|t: int| 0 <= t < k + 1 implies (#[trigger] refresh_modes@[t])@ == rm[t].id
            && refresh_labels@[t]@ == refresh_label_text(rm[t]) by {
            if t < k {
                assert(refresh_modes@[t] == pm[t]);
                assert(refresh_labels@[t] == pl[t]);
            }
        }
        k += 1;
    }
    let mut selected_refresh: Option<usize> = None;
    if modes.len() > 0 {
        assert(d.monitors@.len() == 1);
        assert(d@.monitors[0] == d.monitors@[0]@);
        assert(mode_refs_view(modes@) =~= rm);
        selected_refresh = find_mode_id(&modes, d.monitors[0].mode_id.as_str());
    }
    let r = PanelChoices {
        mirror_partners,
        resolutions,
        resolution_labels,
        selected_resolution,
        refresh_modes,
        refresh_labels,
        selected_refresh,
    };
    assert(r.resolutions@ == resolution_choices_spec(ms, d@));
    assert(match index_of_size(res, mode_size_of(ms, d@.monitors)) {
        Some(k) => r.selected_resolution == Some(k as usize),
        None => r.selected_resolution is None,
    });
    assert(match (rm.len() > 0, index_of_mode(rm, d@.monitors[0].mode_id)) {
        (true, Some(k)) => r.selected_refresh == Some(k as usize),
        _ => r.selected_refresh is None,
    });
    r
}

} // verus!
