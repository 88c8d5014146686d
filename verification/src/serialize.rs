//! `ApplyMonitorsConfig` payloads built from layouts. Scales are in
//! millionths; the D-Bus encoding of the values is done by the caller.
use vstd::prelude::*;
use crate::layout::{AssignmentView, DisplayLayout, DisplayView, LayoutMode, layout_mode_wire};
use crate::monitor::{color_mode_wire, rgb_range_wire};
use crate::text::push_str;
use crate::transform::transform_wire;

verus! {

/// A property value of the payload.
#[derive(Debug, Clone, Copy, PartialEq, Eq, Structural)]
pub enum WireValue {
    U32(u32),
    Bool(bool),
}

/// `(connector, mode_id, properties)`; properties may carry
/// `color-mode: u`, `rgb-range: u`, `underscanning: b`.
pub type WireMonitorAssignment = (String, String, Vec<(String, WireValue)>);

/// `(x, y, scale, transform, primary, monitors)`.
pub type WireLogicalMonitor = (i32, i32, i64, u32, bool, Vec<WireMonitorAssignment>);

pub open spec fn props_view(p: Seq<(String, WireValue)>) -> Seq<(Seq<char>, WireValue)> {
    p.map_values(|e: (String, WireValue)| (e.0@, e.1))
}

/// Properties of one assignment, in this order: color mode, RGB range,
/// underscanning, each only when set.
pub open spec fn assignment_props(a: AssignmentView) -> Seq<(Seq<char>, WireValue)> {
    (match a.color_mode {
        Some(c) => seq![("color-mode"@, WireValue::U32(color_mode_wire(c)))],
        None => Seq::empty(),
    }) + (match a.rgb_range {
        Some(g) => seq![("rgb-range"@, WireValue::U32(rgb_range_wire(g)))],
        None => Seq::empty(),
    }) + (match a.underscanning {
        Some(u) => seq![("underscanning"@, WireValue::Bool(u))],
        None => Seq::empty(),
    })
}

pub ghost struct WireAssignmentView {
    pub connector: Seq<char>,
    pub mode_id: Seq<char>,
    pub props: Seq<(Seq<char>, WireValue)>,
}

pub open spec fn wire_assignment_view(w: WireMonitorAssignment) -> WireAssignmentView {
    WireAssignmentView { connector: w.0@, mode_id: w.1@, props: props_view(w.2@) }
}

pub ghost struct WireLogicalView {
    pub x: i32,
    pub y: i32,
    pub scale: i64,
    pub transform: u32,
    pub primary: bool,
    pub monitors: Seq<WireAssignmentView>,
}

pub open spec fn wire_logical_view(w: WireLogicalMonitor) -> WireLogicalView {
    WireLogicalView {
        x: w.0,
        y: w.1,
        scale: w.2,
        transform: w.3,
        primary: w.4,
        monitors: w.5@.map_values(|a: WireMonitorAssignment| wire_assignment_view(a)),
    }
}

/// The payload entry of one display.
pub open spec fn wire_of(d: DisplayView) -> WireLogicalView {
    WireLogicalView {
        x: d.x,
        y: d.y,
        scale: d.scale,
        transform: transform_wire(d.transform),
        primary: d.primary,
        monitors: d.monitors.map_values(
            |a: AssignmentView| WireAssignmentView { connector: a.connector, mode_id: a.mode_id, props: assignment_props(a) },
        ),
    }
}

fn push_prop(out: &mut Vec<(String, WireValue)>, key: &str, v: WireValue)
    ensures
        props_view(final(out)@) == props_view(old(out)@).push((key@, v)),
{
    out.push((key.to_owned(), v));
    assert(props_view(out@) =~= props_view(old(out)@).push((key@, v)));
}

/// Builds the `a(iiduba(ssa{sv}))` argument, one entry per display.
pub fn wire_logical_monitors(layout: &DisplayLayout) -> (r: Vec<WireLogicalMonitor>)
    ensures
        r@.map_values(|w: WireLogicalMonitor| wire_logical_view(w)) == layout@.displays.map_values(
            |d: DisplayView| wire_of(d),
        ),
{
    let ghost dv = layout@.displays;
    let mut result: Vec<WireLogicalMonitor> = Vec::new();
    let mut i: usize = 0;
    while i < layout.logical_displays.len()
        invariant
            dv == layout@.displays,
            i <= dv.len(),
            result@.map_values(|w: WireLogicalMonitor| wire_logical_view(w)) == dv.take(i as int).map_values(
                |d: DisplayView| wire_of(d),
            ),
        decreases dv.len() - i,
    {
        let logical = &layout.logical_displays[i];
        assert(dv[i as int] == logical@);
        let ghost target = wire_of(logical@).monitors;
        let mut monitors: Vec<WireMonitorAssignment> = Vec::new();
        let mut j: usize = 0;
        while j < logical.monitors.len()
            invariant
                j <= logical.monitors@.len(),
                target == wire_of(logical@).monitors,
                monitors@.map_values(|a: WireMonitorAssignment| wire_assignment_view(a)) == target.take(j as int),
            decreases logical.monitors@.len() - j,
        {
            let a = &logical.monitors[j];
            assert(logical@.monitors[j as int] == a@);
            let mut props: Vec<(String, WireValue)> = Vec::new();
            match a.color_mode {
                Some(c) => push_prop(&mut props, "color-mode", WireValue::U32(c.as_u32())),
                None => {},
            }
            let ghost p1 = props_view(props@);
            match a.rgb_range {
                Some(g) => push_prop(&mut props, "rgb-range", WireValue::U32(g.as_u32())),
                None => {},
            }
            let ghost p2 = props_view(props@);
            match a.underscanning {
                Some(u) => push_prop(&mut props, "underscanning", WireValue::Bool(u)),
                None => {},
            }
            assert(props_view(props@) =~= assignment_props(a@));
            let w = (a.connector.clone(), a.mode_id.clone(), props);
            let ghost before = monitors@;
            monitors.push(w);
            assert(monitors@.map_values(|a: WireMonitorAssignment| wire_assignment_view(a)) =~= before.map_values(
                |a: WireMonitorAssignment| wire_assignment_view(a),
            ).push(target[j as int]));
            j += 1;
            assert(target.take(j as int) =~= target.take(j as int - 1).push(target[j as int - 1]));
        }
        assert(target.take(target.len() as int) =~= target);
        let entry = (logical.x, logical.y, logical.scale, logical.transform.as_u32(), logical.primary, monitors);
        let ghost before = result@;
        result.push(entry);
        assert(result@.map_values(|w: WireLogicalMonitor| wire_logical_view(w)) =~= before.map_values(
            |w: WireLogicalMonitor| wire_logical_view(w),
        ).push(wire_of(dv[i as int])));
        i += 1;
        assert(dv.take(i as int) =~= dv.take(i as int - 1).push(dv[i as int - 1]));
    }
    assert(dv.take(dv.len() as int) =~= dv);
    result
}

/// Builds the top-level `a{sv}` properties argument: `layout-mode` only
/// when the server supports changing it.
pub fn wire_properties(layout_mode: LayoutMode, supports_changing_layout_mode: bool) -> (r: Vec<(String, WireValue)>)
    ensures
        props_view(r@) == if supports_changing_layout_mode {
            seq![("layout-mode"@, WireValue::U32(layout_mode_wire(layout_mode)))]
        } else {
            Seq::empty()
        },
{
    let mut props: Vec<(String, WireValue)> = Vec::new();
    assert(props_view(props@) =~= Seq::empty());
    if supports_changing_layout_mode {
        push_prop(&mut props, "layout-mode", WireValue::U32(layout_mode.as_u32()));
    }
    props
}

} // verus!
