//! Edit operations on the layout being edited: moving displays on the
//! canvas, enabling and disabling monitors, changing resolutions and
//! modes, and cycling the selection.
use vstd::prelude::*;
use crate::geometry::{fits_i32, Rect};
use crate::layout::{
    group_index, assigned_mode, assignments_view, displays_view, find_monitor, monitors_view, rect_of,
    AssignmentView, DisplayLayout, DisplayView, LayoutMode, LayoutView, LogicalDisplay,
    MonitorAssignment,
};
use crate::mode::{closest_scale_upto, scale_listed, ModeView};
use crate::monitor::{best_mode_upto, MonitorView};
use crate::identity::str_eq;
use crate::seqs::first_where;
use crate::snap::{settle_fits, settle_rect, settled};
use crate::state::DisplayState;
use crate::transform::Transform;
use crate::validation::{normalize, normalize_fits, normalized, policy_of};
use crate::layout_ops::{merge_into_mirror, merge_spec, split_from_mirror, split_spec, MirrorLayoutError};

verus! {

/// The selection after Tab (or Shift+Tab with `backwards`) among `count`
/// displays; unchanged when there are none.
pub open spec fn cycled(selected: Option<usize>, count: nat, backwards: bool) -> Option<int> {
    if count == 0 {
        match selected {
            Some(s) => Some(s as int),
            None => None,
        }
    } else {
        match selected {
            None => Some(if backwards { count - 1 } else { 0 }),
            Some(s) => Some(if backwards { (s + count - 1) % (count as int) } else { (s + 1) % (count as int) }),
        }
    }
}

/// Moves the selection to the next or previous display, so the canvas is
/// usable without a pointer.
pub fn cycle_selection(selected: Option<usize>, count: usize, backwards: bool) -> (r: Option<usize>)
    ensures
        match r {
            Some(v) => cycled(selected, count as nat, backwards) == Some(v as int),
            None => cycled(selected, count as nat, backwards) is None,
        },
{
    if count == 0 {
        return selected;
    }
    match selected {
        None => Some(if backwards { count - 1 } else { 0 }),
        Some(current) => {
            let c = current as u128;
            let n = count as u128;
            let next = if backwards { (c + n - 1) % n } else { (c + 1) % n };
            Some(next as usize)
        },
    }
}

/// Where a display is drawn: its resolved rectangle, or a placeholder
/// card at its position when its size cannot be resolved.
pub open spec fn card_of(m: Seq<MonitorView>, d: DisplayView, mode: LayoutMode) -> Rect {
    match rect_of(m, d, mode) {
        Some(r) => r,
        None => Rect { x: d.x, y: d.y, width: 640, height: 360 },
    }
}

pub open spec fn cards(m: Seq<MonitorView>, l: LayoutView) -> Seq<Rect> {
    l.displays.map_values(|d: DisplayView| card_of(m, d, l.layout_mode))
}

/// Rectangles of the displays of a layout in layout coordinates.
pub fn layout_rects(state: &DisplayState, layout: &DisplayLayout) -> (r: Vec<Rect>)
    ensures
        r@ == cards(monitors_view(state.monitors@), layout@),
{
    let ghost m = monitors_view(state.monitors@);
    let mut out: Vec<Rect> = Vec::new();
    let mut i: usize = 0;
    while i < layout.logical_displays.len()
        invariant
            m == monitors_view(state.monitors@),
            i <= layout@.displays.len(),
            out@ == cards(m, layout@).take(i as int),
        decreases layout@.displays.len() - i,
    {
        let d = &layout.logical_displays[i];
        assert(layout@.displays[i as int] == d@);
        let r = match d.rect(state.monitors.as_slice(), layout.layout_mode) {
            Some(r) => r,
            None => Rect::new(d.x, d.y, 640, 360),
        };
        out.push(r);
        i += 1;
        assert(out@ =~= cards(m, layout@).take(i as int));
    }
    assert(cards(m, layout@).take(layout@.displays.len() as int) =~= cards(m, layout@));
    out
}

/// The layout with display `i` moved to `(x, y)`.
pub open spec fn moved_to(l: LayoutView, i: int, x: i32, y: i32) -> LayoutView {
    LayoutView { displays: l.displays.update(i, DisplayView { x, y, ..l.displays[i] }), ..l }
}

/// Where settling puts display `i`: closing gaps and overlaps against the
/// other displays.
pub open spec fn settle_target(m: Seq<MonitorView>, l: LayoutView, i: int) -> Rect {
    let cs = cards(m, l);
    settled(cs[i], cs.remove(i))
}

/// Settling display `i` stays within the machine's integer ranges.
pub open spec fn settle_ok(m: Seq<MonitorView>, l: LayoutView, i: int) -> bool {
    0 <= i < l.displays.len() ==> {
        let cs = cards(m, l);
        let t = settle_target(m, l, i);
        &&& settle_fits(cs[i], cs.remove(i))
        &&& normalize_fits(m, moved_to(l, i, t.x, t.y))
    }
}

/// The layout after settling display `i` and re-anchoring at the origin;
/// unchanged for an index out of range.
pub open spec fn after_settle(m: Seq<MonitorView>, l: LayoutView, i: int) -> LayoutView {
    if 0 <= i < l.displays.len() {
        let t = settle_target(m, l, i);
        normalized(m, moved_to(l, i, t.x, t.y))
    } else {
        l
    }
}

/// Sets the position of display `index`.
fn place(layout: &mut DisplayLayout, index: usize, x: i32, y: i32)
    requires
        index < old(layout)@.displays.len(),
    ensures
        final(layout)@ == moved_to(old(layout)@, index as int, x, y),
{
    let ghost before = layout@;
    let mut d = layout.logical_displays[index].clone();
    d.x = x;
    d.y = y;
    layout.logical_displays.set(index, d);
    assert(layout@.displays =~= moved_to(before, index as int, x, y).displays);
}

/// The rectangles of all displays but `index`.
fn others_of(rects: &Vec<Rect>, index: usize) -> (r: Vec<Rect>)
    requires
        index < rects@.len(),
    ensures
        r@ == rects@.remove(index as int),
{
    let mut out: Vec<Rect> = Vec::new();
    let mut i: usize = 0;
    while i < rects.len()
        invariant
            index < rects@.len(),
            i <= rects@.len(),
            out@ == if i <= index {
                rects@.take(i as int)
            } else {
                rects@.take(i as int).remove(index as int)
            },
        decreases rects@.len() - i,
    {
        if i != index {
            out.push(rects[i]);
        }
        i += 1;
        assert(out@ =~= if i <= index {
            rects@.take(i as int)
        } else {
            rects@.take(i as int).remove(index as int)
        });
    }
    assert(rects@.take(rects@.len() as int) =~= rects@);
    out
}

/// After a drop: closes gaps and overlaps around display `index`, then
/// re-anchors the layout at the origin.
pub fn settle_display(state: &DisplayState, layout: &mut DisplayLayout, index: usize)
    requires
        settle_ok(monitors_view(state.monitors@), old(layout)@, index as int),
    ensures
        final(layout)@ == after_settle(monitors_view(state.monitors@), old(layout)@, index as int),
{
    let rects = layout_rects(state, layout);
    if index >= rects.len() {
        return;
    }
    let others = others_of(&rects, index);
    let target = settle_rect(rects[index], others.as_slice());
    place(layout, index, target.x, target.y);
    normalize(layout, state.monitors.as_slice());
}

/// The layout with display `i` moved by `(dx, dy)`, when `i` is a display.
pub open spec fn nudged(l: LayoutView, i: int, dx: int, dy: int) -> LayoutView {
    if 0 <= i < l.displays.len() {
        moved_to(l, i, (l.displays[i].x + dx) as i32, (l.displays[i].y + dy) as i32)
    } else {
        l
    }
}

/// Nudging stays within the machine's integer ranges.
pub open spec fn nudge_ok(m: Seq<MonitorView>, l: LayoutView, i: int, dx: int, dy: int) -> bool {
    &&& 0 <= i < l.displays.len() ==> fits_i32(l.displays[i].x + dx) && fits_i32(l.displays[i].y + dy)
    &&& settle_ok(m, nudged(l, i, dx, dy), i)
}

/// Moves the selected display by `(dx, dy)` (arrow keys), then settles it;
/// nothing happens without a selection.
pub fn nudge_selected(state: &DisplayState, layout: &mut DisplayLayout, selected: Option<usize>, dx: i32, dy: i32)
    requires
        selected matches Some(i) ==> nudge_ok(monitors_view(state.monitors@), old(layout)@, i as int, dx as int, dy as int),
    ensures
        final(layout)@ == match selected {
            Some(i) => after_settle(
                monitors_view(state.monitors@),
                nudged(old(layout)@, i as int, dx as int, dy as int),
                i as int,
            ),
            None => old(layout)@,
        },
{
    let index = match selected {
        Some(i) => i,
        None => {
            return;
        },
    };
    if index < layout.logical_displays.len() {
        let x = layout.logical_displays[index].x + dx;
        let y = layout.logical_displays[index].y + dy;
        place(layout, index, x, y);
    }
    settle_display(state, layout, index);
}

/// The layout without display `i`; the first remaining display becomes
/// primary when the removed one was.
pub open spec fn without_display(l: LayoutView, i: int) -> LayoutView {
    let rest = l.displays.remove(i);
    LayoutView {
        displays: if l.displays[i].primary && rest.len() > 0 {
            rest.update(0, DisplayView { primary: true, ..rest[0] })
        } else {
            rest
        },
        ..l
    }
}

/// Disabling applies to an existing display while at least two are on.
pub open spec fn can_disable(l: LayoutView, i: int) -> bool {
    0 <= i < l.displays.len() && l.displays.len() >= 2
}

/// Turns off the monitors of display `index` (never the last display) and
/// re-anchors the layout; returns whether anything changed.
pub fn disable_display(state: &DisplayState, layout: &mut DisplayLayout, index: usize) -> (r: bool)
    requires
        can_disable(old(layout)@, index as int) ==> normalize_fits(
            monitors_view(state.monitors@),
            without_display(old(layout)@, index as int),
        ),
    ensures
        r == can_disable(old(layout)@, index as int),
        final(layout)@ == if r {
            normalized(monitors_view(state.monitors@), without_display(old(layout)@, index as int))
        } else {
            old(layout)@
        },
{
    if index >= layout.logical_displays.len() || layout.logical_displays.len() < 2 {
        return false;
    }
    let ghost before = layout@;
    let removed = layout.logical_displays.remove(index);
    assert(removed@ == before.displays[index as int]);
    assert(layout@.displays =~= before.displays.remove(index as int));
    if removed.primary && layout.logical_displays.len() > 0 {
        let mut first = layout.logical_displays[0].clone();
        first.primary = true;
        let ghost rest = layout@.displays;
        layout.logical_displays.set(0, first);
        assert(layout@.displays =~= rest.update(0, DisplayView { primary: true, ..rest[0] }));
    }
    assert(layout@ == without_display(before, index as int));
    normalize(layout, state.monitors.as_slice());
    true
}

/// The mode a newly enabled monitor starts in: its preferred mode, else
/// its first.
pub open spec fn start_mode(mon: MonitorView) -> Option<ModeView> {
    match first_where(mon.modes, |m: ModeView| m.is_preferred) {
        Some(i) => Some(mon.modes[i]),
        None => if mon.modes.len() > 0 {
            Some(mon.modes[0])
        } else {
            None
        },
    }
}

/// The rightmost edge among the first `n` displays whose size resolves.
pub open spec fn max_right(m: Seq<MonitorView>, l: LayoutView, n: int) -> Option<int>
    decreases n,
{
    if n <= 0 {
        None
    } else {
        let prev = max_right(m, l, n - 1);
        match rect_of(m, l.displays[n - 1], l.layout_mode) {
            None => prev,
            Some(r) => match prev {
                None => Some(r.right_int()),
                Some(p) => Some(if r.right_int() > p { r.right_int() } else { p }),
            },
        }
    }
}

/// Where a newly enabled display goes: right of everything, or at 0.
pub open spec fn right_edge(m: Seq<MonitorView>, l: LayoutView) -> int {
    match max_right(m, l, l.displays.len() as int) {
        Some(v) => v,
        None => 0,
    }
}

/// The layout with `connector` added as a display of its own at the right
/// edge, in its starting mode; primary when it is the only display.
pub open spec fn with_enabled(m: Seq<MonitorView>, l: LayoutView, connector: Seq<char>, md: ModeView) -> LayoutView {
    LayoutView {
        displays: l.displays.push(
            DisplayView {
                x: right_edge(m, l) as i32,
                y: 0,
                scale: md.preferred_scale,
                transform: Transform::Normal,
                primary: l.displays.len() == 0,
                monitors: seq![
                    AssignmentView {
                        connector,
                        mode_id: md.id,
                        color_mode: None,
                        rgb_range: None,
                        underscanning: None,
                    },
                ],
            },
        ),
        ..l
    }
}

/// The monitor on `connector` and its starting mode, when both exist.
pub open spec fn enable_mode(m: Seq<MonitorView>, connector: Seq<char>) -> Option<ModeView> {
    match find_monitor(m, connector) {
        Some(k) => start_mode(m[k]),
        None => None,
    }
}

/// Enabling stays within the machine's integer ranges.
pub open spec fn enable_ok(m: Seq<MonitorView>, l: LayoutView, connector: Seq<char>) -> bool {
    enable_mode(m, connector) matches Some(md) ==> {
        &&& forall|k: int|
            0 <= k < l.displays.len() ==> (rect_of(m, #[trigger] l.displays[k], l.layout_mode) matches Some(
                r,
            ) ==> fits_i32(r.right_int()))
        &&& fits_i32(right_edge(m, l))
        &&& normalize_fits(m, with_enabled(m, l, connector, md))
    }
}

/// Turns a disabled monitor on as a display of its own, right of the
/// others; nothing happens for an unknown monitor or one without modes.
pub fn enable_monitor(state: &DisplayState, layout: &mut DisplayLayout, connector: &str)
    requires
        enable_ok(monitors_view(state.monitors@), old(layout)@, connector@),
    ensures
        final(layout)@ == match enable_mode(monitors_view(state.monitors@), connector@) {
            Some(md) => normalized(
                monitors_view(state.monitors@),
                with_enabled(monitors_view(state.monitors@), old(layout)@, connector@, md),
            ),
            None => old(layout)@,
        },
{
    let ghost m = monitors_view(state.monitors@);
    let monitor = match state.monitor(connector) {
        Some(mon) => mon,
        None => {
            return;
        },
    };
    let mode = match monitor.preferred_mode() {
        Some(md) => md,
        None => {
            if monitor.modes.len() == 0 {
                return;
            }
            assert(monitor@.modes[0] == monitor.modes@[0]@);
            &monitor.modes[0]
        },
    };
    let ghost l = layout@;
    let mut edge: Option<i32> = None;
    let mut i: usize = 0;
    while i < layout.logical_displays.len()
        invariant
            m == monitors_view(state.monitors@),
            l == layout@,
            i <= l.displays.len(),
            enable_mode(m, connector@) is Some,
            enable_ok(m, l, connector@),
            match max_right(m, l, i as int) {
                Some(v) => edge matches Some(e) && e as int == v,
                None => edge is None,
            },
        decreases l.displays.len() - i,
    {
        let d = &layout.logical_displays[i];
        assert(l.displays[i as int] == d@);
        match d.rect(state.monitors.as_slice(), layout.layout_mode) {
            Some(r) => {
                assert(fits_i32(r.right_int()));
                let right = r.right();
                edge = match edge {
                    None => Some(right),
                    Some(p) => Some(if right > p { right } else { p }),
                };
            },
            None => {},
        }
        i += 1;
    }
    let x = match edge {
        Some(v) => v,
        None => 0,
    };
    let was_empty = layout.logical_displays.len() == 0;
    let members = vec![
        MonitorAssignment {
            connector: connector.to_owned(),
            mode_id: mode.id.clone(),
            color_mode: None,
            rgb_range: None,
            underscanning: None,
        },
    ];
    let d = LogicalDisplay {
        x,
        y: 0,
        scale: mode.preferred_scale,
        transform: Transform::Normal,
        primary: was_empty,
        monitors: members,
    };
    assert(d@.monitors =~= seq![
        AssignmentView {
            connector: connector@,
            mode_id: mode@.id,
            color_mode: None,
            rgb_range: None,
            underscanning: None,
        },
    ]);
    layout.logical_displays.push(d);
    assert(layout@.displays =~= with_enabled(m, l, connector@, mode@).displays);
    normalize(layout, state.monitors.as_slice());
}

/// A member on `connector` switched to the mode `mode_id`.
pub open spec fn member_with_mode(a: AssignmentView, connector: Seq<char>, mode_id: Seq<char>) -> AssignmentView {
    if a.connector == connector {
        AssignmentView { mode_id, ..a }
    } else {
        a
    }
}

/// The layout with the members on `connector` of display `i` switched to
/// `mode_id`.
pub open spec fn with_mode(l: LayoutView, i: int, connector: Seq<char>, mode_id: Seq<char>) -> LayoutView {
    if 0 <= i < l.displays.len() {
        LayoutView {
            displays: l.displays.update(
                i,
                DisplayView {
                    monitors: l.displays[i].monitors.map_values(
                        |a: AssignmentView| member_with_mode(a, connector, mode_id),
                    ),
                    ..l.displays[i]
                },
            ),
            ..l
        }
    } else {
        l
    }
}

/// Switches the members on `connector` of display `index` to `mode_id`.
pub fn set_mode(layout: &mut DisplayLayout, index: usize, connector: &str, mode_id: &str)
    ensures
        final(layout)@ == with_mode(old(layout)@, index as int, connector@, mode_id@),
{
    if index >= layout.logical_displays.len() {
        return;
    }
    let ghost before = layout@;
    let mut d = layout.logical_displays[index].clone();
    let ghost dv = d@;
    let mut k: usize = 0;
    while k < d.monitors.len()
        invariant
            d@ == (DisplayView { monitors: d@.monitors, ..dv }),
            d@.monitors.len() == dv.monitors.len(),
            k <= dv.monitors.len(),
            forall|t: int| 0 <= t < k ==> #[trigger] d@.monitors[t] == member_with_mode(dv.monitors[t], connector@, mode_id@),
            forall|t: int| k <= t < dv.monitors.len() ==> #[trigger] d@.monitors[t] == dv.monitors[t],
        decreases dv.monitors.len() - k,
    {
        assert(d@.monitors[k as int] == d.monitors@[k as int]@);
        if str_eq(d.monitors[k].connector.as_str(), connector) {
            let mut a = d.monitors[k].clone();
            a.mode_id = mode_id.to_owned();
            let ghost ms = d@.monitors;
            d.monitors.set(k, a);
            assert(d@.monitors =~= ms.update(k as int, a@));
        }
        k += 1;
    }
    assert(d@.monitors =~= dv.monitors.map_values(|a: AssignmentView| member_with_mode(a, connector@, mode_id@)));
    layout.logical_displays.set(index, d);
    assert(layout@.displays =~= with_mode(before, index as int, connector@, mode_id@).displays);
}

/// A member switched to the best mode of its monitor at `w`×`h`, when its
/// monitor has one.
pub open spec fn member_at_resolution(m: Seq<MonitorView>, a: AssignmentView, w: i32, h: i32) -> AssignmentView {
    match find_monitor(m, a.connector) {
        Some(k) => match best_mode_upto(m[k].modes, w, h, m[k].modes.len() as int) {
            Some(j) => AssignmentView { mode_id: m[k].modes[j].id, ..a },
            None => a,
        },
        None => a,
    }
}

/// The member's mode exists and offers `scale`.
pub open spec fn member_supports(m: Seq<MonitorView>, a: AssignmentView, scale: i64) -> bool {
    match assigned_mode(m, a) {
        Some(md) => scale_listed(md.scales, scale as int),
        None => false,
    }
}

/// The scale kept after a resolution change: unchanged when every member
/// supports it, else the closest scale (or the preferred one) of the
/// first member's mode.
pub open spec fn kept_scale(m: Seq<MonitorView>, members: Seq<AssignmentView>, scale: i64) -> i64 {
    if forall|t: int| 0 <= t < members.len() ==> member_supports(m, #[trigger] members[t], scale) {
        scale
    } else if members.len() > 0 {
        match assigned_mode(m, members[0]) {
            Some(md) => match closest_scale_upto(md.scales, scale as int, md.scales.len() as int) {
                Some(s) => s,
                None => md.preferred_scale,
            },
            None => scale,
        }
    } else {
        scale
    }
}

/// Display `i` switched to `w`×`h`, with a scale its modes support.
pub open spec fn at_resolution(m: Seq<MonitorView>, d: DisplayView, w: i32, h: i32) -> DisplayView {
    let ms = d.monitors.map_values(|a: AssignmentView| member_at_resolution(m, a, w, h));
    DisplayView { monitors: ms, scale: kept_scale(m, ms, d.scale), ..d }
}

pub open spec fn with_resolution(m: Seq<MonitorView>, l: LayoutView, i: int, w: i32, h: i32) -> LayoutView {
    LayoutView { displays: l.displays.update(i, at_resolution(m, l.displays[i], w, h)), ..l }
}

/// Switches display `index` to `w`×`h`: each member takes its monitor's
/// best mode at that size, the scale is kept valid for the new modes, and
/// the layout is re-anchored; nothing happens for an index out of range.
pub fn set_resolution(state: &DisplayState, layout: &mut DisplayLayout, index: usize, w: i32, h: i32)
    requires
        0 <= index < old(layout)@.displays.len() ==> normalize_fits(
            monitors_view(state.monitors@),
            with_resolution(monitors_view(state.monitors@), old(layout)@, index as int, w, h),
        ),
    ensures
        final(layout)@ == if index < old(layout)@.displays.len() {
            normalized(
                monitors_view(state.monitors@),
                with_resolution(monitors_view(state.monitors@), old(layout)@, index as int, w, h),
            )
        } else {
            old(layout)@
        },
{
    if index >= layout.logical_displays.len() {
        return;
    }
    let ghost m = monitors_view(state.monitors@);
    let ghost before = layout@;
    let mut d = layout.logical_displays[index].clone();
    let ghost dv = d@;
    let mut k: usize = 0;
    while k < d.monitors.len()
        invariant
            m == monitors_view(state.monitors@),
            d@ == (DisplayView { monitors: d@.monitors, ..dv }),
            d@.monitors.len() == dv.monitors.len(),
            k <= dv.monitors.len(),
            forall|t: int| 0 <= t < k ==> #[trigger] d@.monitors[t] == member_at_resolution(m, dv.monitors[t], w, h),
            forall|t: int| k <= t < dv.monitors.len() ==> #[trigger] d@.monitors[t] == dv.monitors[t],
        decreases dv.monitors.len() - k,
    {
        assert(d@.monitors[k as int] == d.monitors@[k as int]@);
        match state.monitor(d.monitors[k].connector.as_str()) {
            Some(mon) => match mon.best_mode_at(w, h) {
                Some(md) => {
                    let mut a = d.monitors[k].clone();
                    a.mode_id = md.id.clone();
                    let ghost ms = d@.monitors;
                    d.monitors.set(k, a);
                    assert(d@.monitors =~= ms.update(k as int, a@));
                },
                None => {},
            },
            None => {},
        }
        k += 1;
    }
    let ghost ms = dv.monitors.map_values(|a: AssignmentView| member_at_resolution(m, a, w, h));
    assert(d@.monitors =~= ms);
    let mut all_support = true;
    let mut t: usize = 0;
    while t < d.monitors.len()
        invariant
            m == monitors_view(state.monitors@),
            d@.monitors == ms,
            t <= ms.len(),
            all_support == forall|q: int| 0 <= q < t ==> member_supports(m, #[trigger] ms[q], d.scale),
        decreases ms.len() - t,
    {
        assert(ms[t as int] == d.monitors@[t as int]@);
        let ok = match crate::layout::resolve_assignment(state.monitors.as_slice(), &d.monitors[t]) {
            Some((mi, mk)) => state.monitors[mi].modes[mk].supports_scale(d.scale),
            None => false,
        };
        all_support = all_support && ok;
        t += 1;
    }
    if !all_support && d.monitors.len() > 0 {
        assert(ms[0] == d.monitors@[0]@);
        match crate::layout::resolve_assignment(state.monitors.as_slice(), &d.monitors[0]) {
            Some((mi, mk)) => {
                let md = &state.monitors[mi].modes[mk];
                d.scale = match md.closest_supported_scale(d.scale) {
                    Some(s) => s,
                    None => md.preferred_scale,
                };
            },
            None => {},
        }
    }
    assert(d@ == at_resolution(m, dv, w, h));
    layout.logical_displays.set(index, d);
    assert(layout@.displays =~= with_resolution(m, before, index as int, w, h).displays);
    normalize(layout, state.monitors.as_slice());
}

/// The connector of member `member_index` of display `index`, when both exist.
pub open spec fn member_at(l: LayoutView, index: int, member_index: int) -> Option<Seq<char>> {
    if 0 <= index < l.displays.len() && 0 <= member_index < l.displays[index].monitors.len() {
        Some(l.displays[index].monitors[member_index].connector)
    } else {
        None
    }
}

/// Splits member `member_index` of display `index` out of its mirror group.
/// `None`, with the layout unchanged, when there is no such member.
pub fn split_member(state: &DisplayState, layout: &mut DisplayLayout, index: usize, member_index: usize) -> (r: Option<Result<(), MirrorLayoutError>>)
    ensures
        match member_at(old(layout)@, index as int, member_index as int) {
            None => r is None && final(layout)@ == old(layout)@,
            Some(c) => match (r, split_spec(state.monitors_v(), old(layout)@, c)) {
                (Some(Ok(_)), Ok(l)) => final(layout)@ == l,
                (Some(Err(e)), Err(v)) => e@ == v && final(layout)@ == old(layout)@,
                _ => false,
            },
        },
{
    if index >= layout.logical_displays.len() {
        return None;
    }
    if member_index >= layout.logical_displays[index].monitors.len() {
        return None;
    }
    assert(layout.logical_displays@[index as int]@ == layout@.displays[index as int]);
    assert(layout.logical_displays@[index as int].monitors@[member_index as int]@
        == layout@.displays[index as int].monitors[member_index as int]);
    let connector = layout.logical_displays[index].monitors[member_index].connector.clone();
    Some(split_from_mirror(state, layout, connector.as_str()))
}

/// The group that display `index` joins after a merge: that of its first
/// member in the new layout.
pub open spec fn merged_selection(before: LayoutView, after: LayoutView, index: int) -> Option<int> {
    group_index(after.displays, before.displays[index].monitors[0].connector)
}

/// Mirrors `connector`'s monitor onto display `index` (anchored at its first
/// member) and returns the index of the merged group, which stays
/// selected. `None`, with the layout unchanged, when display `index` does
/// not exist or has no member.
pub fn add_mirror_member(state: &DisplayState, layout: &mut DisplayLayout, index: usize, connector: &str) -> (r: Option<Result<Option<usize>, MirrorLayoutError>>)
    ensures
        match member_at(old(layout)@, index as int, 0) {
            None => r is None && final(layout)@ == old(layout)@,
            Some(anchor) => match (r, merge_spec(state.monitors_v(), old(layout)@, anchor, connector@, policy_of(*state))) {
                (Some(Ok(sel)), Ok(l)) => final(layout)@ == l && match merged_selection(old(layout)@, l, index as int) {
                    None => sel is None,
                    Some(k) => sel == Some(k as usize),
                },
                (Some(Err(e)), Err(v)) => e@ == v && final(layout)@ == old(layout)@,
                _ => false,
            },
        },
{
    if index >= layout.logical_displays.len() {
        return None;
    }
    if layout.logical_displays[index].monitors.len() == 0 {
        return None;
    }
    assert(layout.logical_displays@[index as int]@ == layout@.displays[index as int]);
    assert(layout.logical_displays@[index as int].monitors@[0]@
        == layout@.displays[index as int].monitors[0]);
    let anchor = layout.logical_displays[index].monitors[0].connector.clone();
    match merge_into_mirror(state, layout, anchor.as_str(), connector) {
        Ok(()) => {
            let sel = layout.group_index_of(anchor.as_str());
            Some(Ok(sel))
        },
        Err(e) => Some(Err(e)),
    }
}

/// An arrow key pressed on the canvas.
#[derive(Debug, Clone, Copy, PartialEq, Eq, Structural)]
pub enum ArrowKey {
    Left,
    Right,
    Up,
    Down,
}

/// How far an arrow key moves the selected display: 8 layout pixels, 64
/// with Shift, in the arrow's direction.
pub open spec fn arrow_delta(key: ArrowKey, shift: bool) -> (i32, i32) {
    let step: i32 = if shift { 64 } else { 8 };
    match key {
        ArrowKey::Left => (-step as i32, 0),
        ArrowKey::Right => (step, 0),
        ArrowKey::Up => (0, -step as i32),
        ArrowKey::Down => (0, step),
    }
}

/// The offset by which an arrow key nudges the selected display.
pub fn arrow_step(key: ArrowKey, shift: bool) -> (r: (i32, i32))
    ensures
        r == arrow_delta(key, shift),
{
    let step: i32 = if shift { 64 } else { 8 };
    match key {
        ArrowKey::Left => (-step, 0),
        ArrowKey::Right => (step, 0),
        ArrowKey::Up => (0, -step),
        ArrowKey::Down => (0, step),
    }
}

/// Every display of `r` other than `i` sits at its place in `l` moved by
/// `(-dx, -dy)`.
pub open spec fn others_shifted(r: LayoutView, l: LayoutView, i: int, dx: int, dy: int) -> bool {
    forall|k: int|
        0 <= k < l.displays.len() && k != i ==> (#[trigger] r.displays[k]).x == l.displays[k].x - dx && r.displays[k].y
            == l.displays[k].y - dy
}

/// Settling a dropped display changes positions only: every display keeps
/// its monitors, scale, transform and primary flag, and the displays other
/// than the dropped one all move by one common offset.
pub proof fn lemma_settle_moves_only_positions(m: Seq<MonitorView>, l: LayoutView, i: int)
    requires
        settle_ok(m, l, i),
    ensures
        after_settle(m, l, i).layout_mode == l.layout_mode,
        after_settle(m, l, i).displays.len() == l.displays.len(),
        forall|k: int|
            0 <= k < l.displays.len() ==> {
                let d = #[trigger] after_settle(m, l, i).displays[k];
                d.monitors == l.displays[k].monitors && d.scale == l.displays[k].scale && d.transform
                    == l.displays[k].transform && d.primary == l.displays[k].primary
            },
        exists|dx: int, dy: int| #[trigger] others_shifted(after_settle(m, l, i), l, i, dx, dy),
{
    if 0 <= i < l.displays.len() {
        let t = settle_target(m, l, i);
        let l2 = moved_to(l, i, t.x, t.y);
        crate::normalization::lemma_normalize_shift_idempotent(m, l2);
        let (dx, dy) = crate::validation::layout_origin(m, l2);
        let r = after_settle(m, l, i);
        assert(r == normalized(m, l2));
        assert forall|k: int| 0 <= k < l.displays.len() implies {
            let d = #[trigger] r.displays[k];
            d.monitors == l.displays[k].monitors && d.scale == l.displays[k].scale && d.transform
                == l.displays[k].transform && d.primary == l.displays[k].primary
        } by {
            assert(r.displays[k] == (DisplayView { x: (l2.displays[k].x - dx) as i32, y: (l2.displays[k].y - dy) as i32, ..l2.displays[k] }));
        }
        assert forall|k: int| 0 <= k < l.displays.len() && k != i implies (#[trigger] r.displays[k]).x == l.displays[k].x
            - dx && r.displays[k].y == l.displays[k].y - dy by {
            assert(l2.displays[k] == l.displays[k]);
        }
        assert(others_shifted(r, l, i, dx, dy));
    } else {
        assert(others_shifted(after_settle(m, l, i), l, i, 0, 0));
    }
}

/// Monitor `q` is the first connected monitor on connector `c`.
pub open spec fn first_on(m: Seq<MonitorView>, c: Seq<char>, q: int) -> bool {
    &&& 0 <= q < m.len()
    &&& m[q].identity.connector@ == c
    &&& forall|u: int| 0 <= u < q ==> (#[trigger] m[u]).identity.connector@ != c
}

/// Mode `j` of monitor `mon` is `w`×`h` and no other `w`×`h` mode of it is
/// better: progressive where any is, and at the highest refresh rate.
pub open spec fn best_sized(mon: MonitorView, j: int, w: i32, h: i32) -> bool {
    &&& 0 <= j < mon.modes.len()
    &&& mon.modes[j].width == w && mon.modes[j].height == h
    &&& forall|k: int|
        0 <= k < mon.modes.len() && (#[trigger] mon.modes[k]).width == w && mon.modes[k].height == h ==> (
        !mon.modes[k].is_interlaced ==> !mon.modes[j].is_interlaced) && (mon.modes[k].is_interlaced
            == mon.modes[j].is_interlaced ==> mon.modes[k].refresh <= mon.modes[j].refresh)
}

/// Changing display `i`'s resolution to `w`×`h` touches only that
/// display's members' modes and its scale: each member whose monitor has
/// a `w`×`h` mode switches to the best such mode, the others keep theirs,
/// and the scale stays when every member's new mode supports it.
pub proof fn lemma_resolution_change(m: Seq<MonitorView>, l: LayoutView, i: int, w: i32, h: i32)
    requires
        0 <= i < l.displays.len(),
    ensures
        ({
            let r = with_resolution(m, l, i, w, h);
            let d = l.displays[i];
            let e = r.displays[i];
            &&& r.layout_mode == l.layout_mode && r.displays.len() == l.displays.len()
            &&& forall|k: int| 0 <= k < l.displays.len() && k != i ==> #[trigger] r.displays[k] == l.displays[k]
            &&& e.x == d.x && e.y == d.y && e.transform == d.transform && e.primary == d.primary
            &&& e.monitors.len() == d.monitors.len()
            &&& forall|t: int|
                0 <= t < d.monitors.len() ==> (#[trigger] e.monitors[t]) == (AssignmentView {
                    mode_id: e.monitors[t].mode_id,
                    ..d.monitors[t]
                })
            &&& forall|t: int, q: int|
                0 <= t < d.monitors.len() && #[trigger] first_on(m, d.monitors[t].connector, q) && (exists|j: int|
                    0 <= j < m[q].modes.len() && (#[trigger] m[q].modes[j]).width == w && m[q].modes[j].height == h)
                    ==> exists|j: int| #[trigger] best_sized(m[q], j, w, h) && m[q].modes[j].id == e.monitors[t].mode_id
            &&& forall|t: int|
                0 <= t < d.monitors.len() && (forall|q: int|
                    #[trigger] first_on(m, d.monitors[t].connector, q) ==> forall|j: int|
                        0 <= j < m[q].modes.len() ==> !((#[trigger] m[q].modes[j]).width == w && m[q].modes[j].height
                            == h)) ==> (#[trigger] e.monitors[t]).mode_id == d.monitors[t].mode_id
            &&& (forall|t: int| 0 <= t < e.monitors.len() ==> member_supports(m, #[trigger] e.monitors[t], d.scale))
                ==> e.scale == d.scale
        }),
{
    let r = with_resolution(m, l, i, w, h);
    let d = l.displays[i];
    let e = r.displays[i];
    assert(e == at_resolution(m, d, w, h));
    assert forall|t: int| 0 <= t < d.monitors.len() implies {
        let a = d.monitors[t];
        let cp = crate::layout::connector_is(a.connector);
        &&& (#[trigger] e.monitors[t]) == (AssignmentView { mode_id: e.monitors[t].mode_id, ..a })
        &&& (forall|q: int|
            first_on(m, a.connector, q) && (exists|j: int|
                0 <= j < m[q].modes.len() && (#[trigger] m[q].modes[j]).width == w && m[q].modes[j].height == h)
                ==> exists|j: int| #[trigger] best_sized(m[q], j, w, h) && m[q].modes[j].id == e.monitors[t].mode_id)
        &&& ((forall|q: int|
            first_on(m, a.connector, q) ==> forall|j: int|
                0 <= j < m[q].modes.len() ==> !((#[trigger] m[q].modes[j]).width == w && m[q].modes[j].height == h))
            ==> e.monitors[t].mode_id == a.mode_id)
    } by {
        let a = d.monitors[t];
        let cp = crate::layout::connector_is(a.connector);
        assert(e.monitors[t] == member_at_resolution(m, a, w, h));
        match find_monitor(m, a.connector) {
            Some(q0) => {
                let k0 = choose|k0: int| crate::seqs::is_first(m, cp, k0);
                crate::seqs::lemma_first_where_at(m, cp, k0);
                assert forall|u: int| 0 <= u < q0 implies (#[trigger] m[u]).identity.connector@ != a.connector by {
                    assert(!cp(m[u]));
                }
                assert(first_on(m, a.connector, q0));
                assert forall|q: int| #[trigger] first_on(m, a.connector, q) implies q == q0 by {
                    if q < q0 {
                        assert(m[q].identity.connector@ != a.connector);
                    } else if q0 < q {
                        assert(m[q0].identity.connector@ != a.connector);
                    }
                }
                crate::monitor::lemma_best_mode_law(m[q0].modes, w, h, m[q0].modes.len() as int);
                match best_mode_upto(m[q0].modes, w, h, m[q0].modes.len() as int) {
                    Some(j) => {
                        assert(best_sized(m[q0], j, w, h));
                    },
                    None => {},
                }
            },
            None => {
                assert forall|q: int| first_on(m, a.connector, q) implies false by {
                    crate::seqs::lemma_first_where_some(m, cp, q);
                }
            },
        }
    }
    assert(forall|k: int| 0 <= k < l.displays.len() && k != i ==> #[trigger] r.displays[k] == l.displays[k]);
    assert(e.monitors.len() == d.monitors.len());
    assert(forall|t: int|
        0 <= t < d.monitors.len() ==> (#[trigger] e.monitors[t]) == (AssignmentView {
            mode_id: e.monitors[t].mode_id,
            ..d.monitors[t]
        }));
    assert forall|t: int, q: int|
        0 <= t < d.monitors.len() && #[trigger] first_on(m, d.monitors[t].connector, q) && (exists|j: int|
            0 <= j < m[q].modes.len() && (#[trigger] m[q].modes[j]).width == w && m[q].modes[j].height == h)
            implies exists|j: int| #[trigger] best_sized(m[q], j, w, h) && m[q].modes[j].id == e.monitors[t].mode_id by {}
    assert forall|t: int|
        0 <= t < d.monitors.len() && (forall|q: int|
            #[trigger] first_on(m, d.monitors[t].connector, q) ==> forall|j: int|
                0 <= j < m[q].modes.len() ==> !((#[trigger] m[q].modes[j]).width == w && m[q].modes[j].height
                    == h)) implies (#[trigger] e.monitors[t]).mode_id == d.monitors[t].mode_id by {}
    assert((forall|t: int| 0 <= t < e.monitors.len() ==> member_supports(m, #[trigger] e.monitors[t], d.scale))
        ==> e.scale == d.scale);
}

} // verus!
