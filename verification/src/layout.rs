//! Logical displays and layouts.
//!
//! A logical display is a region of the shared coordinate space holding one
//! or more physical monitors; several members mirror each other.
use vstd::prelude::*;
use crate::geometry::Rect;
use crate::identity::str_eq;
use crate::mode::ModeView;
use crate::monitor::{modes_view, ColorMode, MonitorView, PhysicalMonitor, RgbRange};
use crate::seqs::{first_where, lemma_first_where_at, lemma_first_where_none};
use crate::transform::{transformed, Transform};
use crate::units::{round_div, saturate_i32, saturate_i32_exec, SCALE_ONE};

verus! {

/// Mutter layout modes (wire values 1 and 2).
#[derive(Debug, Clone, Copy, PartialEq, Eq, Structural, Hash)]
pub enum LayoutMode {
    /// Coordinates are in scaled (logical) pixels — the GNOME default.
    Logical,
    /// Coordinates are in physical pixels.
    Physical,
}

impl Default for LayoutMode {
    fn default() -> (r: LayoutMode)
        ensures
            r == LayoutMode::Logical,
    {
        LayoutMode::Logical
    }
}

pub open spec fn layout_mode_wire(m: LayoutMode) -> u32 {
    match m {
        LayoutMode::Logical => 1,
        LayoutMode::Physical => 2,
    }
}

pub open spec fn layout_mode_from_wire(v: u32) -> Option<LayoutMode> {
    if v == 1 {
        Some(LayoutMode::Logical)
    } else if v == 2 {
        Some(LayoutMode::Physical)
    } else {
        None
    }
}

impl LayoutMode {
    pub fn as_u32(self) -> (r: u32)
        ensures
            r == layout_mode_wire(self),
    {
        match self {
            LayoutMode::Logical => 1,
            LayoutMode::Physical => 2,
        }
    }

    pub fn from_u32(v: u32) -> (r: Option<Self>)
        ensures
            r == layout_mode_from_wire(v),
    {
        match v {
            1 => Some(LayoutMode::Logical),
            2 => Some(LayoutMode::Physical),
            _ => None,
        }
    }
}

/// Layout-mode wire values round-trip.
pub proof fn lemma_layout_mode_roundtrip(m: LayoutMode, v: u32)
    ensures
        layout_mode_from_wire(layout_mode_wire(m)) == Some(m),
        layout_mode_from_wire(v) matches Some(x) ==> layout_mode_wire(x) == v,
{
}

/// One physical monitor's assignment inside a logical display.
#[derive(Debug, PartialEq)]
pub struct MonitorAssignment {
    /// Connector of the physical monitor.
    pub connector: String,
    /// Mode ID from the same state snapshot.
    pub mode_id: String,
    pub color_mode: Option<ColorMode>,
    pub rgb_range: Option<RgbRange>,
    /// Only meaningful for monitors that support underscanning.
    pub underscanning: Option<bool>,
}

/// Mathematical model of an assignment.
pub ghost struct AssignmentView {
    pub connector: Seq<char>,
    pub mode_id: Seq<char>,
    pub color_mode: Option<ColorMode>,
    pub rgb_range: Option<RgbRange>,
    pub underscanning: Option<bool>,
}

impl View for MonitorAssignment {
    type V = AssignmentView;

    open spec fn view(&self) -> AssignmentView {
        AssignmentView {
            connector: self.connector@,
            mode_id: self.mode_id@,
            color_mode: self.color_mode,
            rgb_range: self.rgb_range,
            underscanning: self.underscanning,
        }
    }
}

impl Clone for MonitorAssignment {
    fn clone(&self) -> (r: Self)
        ensures
            r@ == self@,
    {
        MonitorAssignment {
            connector: self.connector.clone(),
            mode_id: self.mode_id.clone(),
            color_mode: self.color_mode,
            rgb_range: self.rgb_range,
            underscanning: self.underscanning,
        }
    }
}

/// A logical display: position, scale (millionths), transform, primary flag
/// and one or more member monitors.
#[derive(Debug, PartialEq)]
pub struct LogicalDisplay {
    pub x: i32,
    pub y: i32,
    pub scale: i64,
    pub transform: Transform,
    pub primary: bool,
    pub monitors: Vec<MonitorAssignment>,
}

/// Mathematical model of a logical display.
pub ghost struct DisplayView {
    pub x: i32,
    pub y: i32,
    pub scale: i64,
    pub transform: Transform,
    pub primary: bool,
    pub monitors: Seq<AssignmentView>,
}

pub open spec fn assignments_view(s: Seq<MonitorAssignment>) -> Seq<AssignmentView> {
    s.map_values(|a: MonitorAssignment| a@)
}

impl View for LogicalDisplay {
    type V = DisplayView;

    open spec fn view(&self) -> DisplayView {
        DisplayView {
            x: self.x,
            y: self.y,
            scale: self.scale,
            transform: self.transform,
            primary: self.primary,
            monitors: assignments_view(self.monitors@),
        }
    }
}

/// Copies of a list of assignments.
pub fn clone_assignments(v: &Vec<MonitorAssignment>) -> (r: Vec<MonitorAssignment>)
    ensures
        assignments_view(r@) == assignments_view(v@),
{
    let mut out: Vec<MonitorAssignment> = Vec::new();
    let mut i: usize = 0;
    while i < v.len()
        invariant
            i <= v@.len(),
            out@.len() == i,
            forall|j: int| 0 <= j < i ==> (#[trigger] out@[j])@ == v@[j]@,
        decreases v@.len() - i,
    {
        out.push(v[i].clone());
        i += 1;
    }
    assert(assignments_view(out@) =~= assignments_view(v@));
    out
}

impl Clone for LogicalDisplay {
    fn clone(&self) -> (r: Self)
        ensures
            r@ == self@,
    {
        LogicalDisplay {
            x: self.x,
            y: self.y,
            scale: self.scale,
            transform: self.transform,
            primary: self.primary,
            monitors: clone_assignments(&self.monitors),
        }
    }
}

/// A complete proposed or current layout. Monitors in no logical display
/// are disabled.
#[derive(Debug, PartialEq)]
pub struct DisplayLayout {
    pub layout_mode: LayoutMode,
    pub logical_displays: Vec<LogicalDisplay>,
}

/// Mathematical model of a layout.
pub ghost struct LayoutView {
    pub layout_mode: LayoutMode,
    pub displays: Seq<DisplayView>,
}

pub open spec fn displays_view(s: Seq<LogicalDisplay>) -> Seq<DisplayView> {
    s.map_values(|d: LogicalDisplay| d@)
}

impl View for DisplayLayout {
    type V = LayoutView;

    open spec fn view(&self) -> LayoutView {
        LayoutView { layout_mode: self.layout_mode, displays: displays_view(self.logical_displays@) }
    }
}

/// Copies of a list of logical displays.
pub fn clone_displays(v: &Vec<LogicalDisplay>) -> (r: Vec<LogicalDisplay>)
    ensures
        displays_view(r@) == displays_view(v@),
{
    let mut out: Vec<LogicalDisplay> = Vec::new();
    let mut i: usize = 0;
    while i < v.len()
        invariant
            i <= v@.len(),
            out@.len() == i,
            forall|j: int| 0 <= j < i ==> (#[trigger] out@[j])@ == v@[j]@,
        decreases v@.len() - i,
    {
        out.push(v[i].clone());
        i += 1;
    }
    assert(displays_view(out@) =~= displays_view(v@));
    out
}

impl Clone for DisplayLayout {
    fn clone(&self) -> (r: Self)
        ensures
            r@ == self@,
    {
        DisplayLayout {
            layout_mode: self.layout_mode,
            logical_displays: clone_displays(&self.logical_displays),
        }
    }
}

pub open spec fn monitors_view(s: Seq<PhysicalMonitor>) -> Seq<MonitorView> {
    s.map_values(|m: PhysicalMonitor| m@)
}

/// Index of the first monitor on `connector`.
pub open spec fn find_monitor(monitors: Seq<MonitorView>, connector: Seq<char>) -> Option<int> {
    first_where(monitors, connector_is(connector))
}

/// The monitor has the given connector.
pub open spec fn connector_is(connector: Seq<char>) -> spec_fn(MonitorView) -> bool {
    |m: MonitorView| m.identity.connector@ == connector
}

/// Index of the first mode with the given ID.
pub open spec fn find_mode(modes: Seq<ModeView>, id: Seq<char>) -> Option<int> {
    first_where(modes, |m: ModeView| m.id == id)
}

/// The mode an assignment refers to, when its monitor and mode exist.
pub open spec fn assigned_mode(monitors: Seq<MonitorView>, a: AssignmentView) -> Option<ModeView> {
    match find_monitor(monitors, a.connector) {
        None => None,
        Some(i) => match find_mode(monitors[i].modes, a.mode_id) {
            None => None,
            Some(k) => Some(monitors[i].modes[k]),
        },
    }
}

/// Mode size of the first member (in order) whose mode resolves.
pub open spec fn mode_size_of(monitors: Seq<MonitorView>, members: Seq<AssignmentView>) -> Option<
    (i32, i32),
>
    decreases members.len(),
{
    if members.len() == 0 {
        None
    } else {
        match assigned_mode(monitors, members[0]) {
            Some(m) => Some((m.width, m.height)),
            None => mode_size_of(monitors, members.drop_first()),
        }
    }
}

/// `round(size / scale)` in the fixed-point scale convention, saturated to
/// the `i32` range like a float-to-int cast. A zero scale gives the
/// saturated value of an infinite quotient (or 0 for a zero size).
pub open spec fn scaled(size: int, scale: int) -> i32 {
    if scale == 0 {
        if size > 0 {
            i32::MAX
        } else if size < 0 {
            i32::MIN
        } else {
            0
        }
    } else if scale > 0 {
        saturate_i32(round_div(size * SCALE_ONE, scale))
    } else {
        saturate_i32(-round_div(size * SCALE_ONE, -scale))
    }
}

/// Size of a logical display in layout coordinates.
pub open spec fn logical_size_of(
    monitors: Seq<MonitorView>,
    d: DisplayView,
    mode: LayoutMode,
) -> Option<(i32, i32)> {
    match mode_size_of(monitors, d.monitors) {
        None => None,
        Some((w, h)) => {
            let (tw, th) = transformed(d.transform, w, h);
            match mode {
                LayoutMode::Logical => Some((scaled(tw as int, d.scale as int), scaled(th as int, d.scale as int))),
                LayoutMode::Physical => Some((tw, th)),
            }
        },
    }
}

/// Rectangle of a logical display in layout coordinates.
pub open spec fn rect_of(monitors: Seq<MonitorView>, d: DisplayView, mode: LayoutMode) -> Option<
    Rect,
> {
    match logical_size_of(monitors, d, mode) {
        None => None,
        Some((w, h)) => Some(Rect { x: d.x, y: d.y, width: w, height: h }),
    }
}

/// Whether a connector appears among the members.
pub open spec fn has_connector(members: Seq<AssignmentView>, c: Seq<char>) -> bool {
    exists|j: int| 0 <= j < members.len() && (#[trigger] members[j]).connector == c
}

/// Index of the first monitor on `connector` in a slice.
pub fn find_monitor_index(monitors: &[PhysicalMonitor], connector: &str) -> (r: Option<usize>)
    ensures
        match find_monitor(monitors_view(monitors@), connector@) {
            None => r is None,
            Some(i) => r is Some && r->0 as int == i && 0 <= i < monitors@.len(),
        },
{
    let ghost mv = monitors_view(monitors@);
    let mut i: usize = 0;
    while i < monitors.len()
        invariant
            mv == monitors_view(monitors@),
            i <= monitors@.len(),
            forall|j: int| 0 <= j < i ==> (#[trigger] mv[j]).identity.connector@ != connector@,
        decreases monitors@.len() - i,
    {
        assert(mv[i as int] == monitors@[i as int]@);
        if str_eq(monitors[i].identity.connector.as_str(), connector) {
            proof {
                lemma_first_where_at(
                    mv,
                    connector_is(connector@),
                    i as int,
                );
            }
            return Some(i);
        }
        i += 1;
    }
    proof {
        lemma_first_where_none(mv, connector_is(connector@));
    }
    None
}

/// The mode an assignment refers to, as (monitor index, mode index).
pub fn resolve_assignment(monitors: &[PhysicalMonitor], a: &MonitorAssignment) -> (r: Option<
    (usize, usize),
>)
    ensures
        match assigned_mode(monitors_view(monitors@), a@) {
            None => r is None,
            Some(m) => match r {
                None => false,
                Some((i, k)) => i < monitors@.len() && k < monitors@[i as int].modes@.len()
                    && monitors@[i as int].modes@[k as int]@ == m && find_monitor(
                    monitors_view(monitors@),
                    a@.connector,
                ) == Some(i as int),
            },
        },
{
    let ghost mv = monitors_view(monitors@);
    match find_monitor_index(monitors, a.connector.as_str()) {
        None => None,
        Some(i) => {
            assert(mv[i as int] == monitors@[i as int]@);
            match monitors[i].find_mode_index(a.mode_id.as_str()) {
                None => None,
                Some(k) => {
                    assert(mv[i as int].modes[k as int] == monitors@[i as int].modes@[k as int]@);
                    Some((i, k))
                },
            }
        },
    }
}

/// `round(size / scale)` in the fixed-point scale convention, saturated to
/// `i32`.
pub fn scale_length(size: i32, scale: i64) -> (r: i32)
    ensures
        r == scaled(size as int, scale as int),
{
    if scale == 0 {
        if size > 0 {
            i32::MAX
        } else if size < 0 {
            i32::MIN
        } else {
            0
        }
    } else {
        let n: i128 = size as i128 * SCALE_ONE as i128;
        let d: i128 = if scale > 0 {
            scale as i128
        } else {
            -(scale as i128)
        };
        assert(-0x8000_0000 * 1_000_000 <= n <= 0x8000_0000 * 1_000_000);
        let q: i128 = if n >= 0 {
            (2 * n + d) / (2 * d)
        } else {
            -((2 * (-n) + d) / (2 * d))
        };
        let v: i128 = if scale > 0 {
            q
        } else {
            -q
        };
        proof {
            if n >= 0 {
                assert(0 <= (2 * n + d) / (2 * d) <= 2 * n + d) by (nonlinear_arith)
                    requires
                        n >= 0,
                        d >= 1,
                ;
            } else {
                assert(0 <= (2 * (-n) + d) / (2 * d) <= 2 * (-n) + d) by (nonlinear_arith)
                    requires
                        n < 0,
                        d >= 1,
                ;
            }
        }
        saturate_i32_exec(v)
    }
}

/// `round(size / scale)` for a mode size — Mutter's logical-size rule.
pub fn scale_size(width: i32, height: i32, scale: i64) -> (r: (i32, i32))
    ensures
        r == (scaled(width as int, scale as int), scaled(height as int, scale as int)),
{
    (scale_length(width, scale), scale_length(height, scale))
}

impl LogicalDisplay {
    pub fn is_mirror_group(&self) -> (r: bool)
        ensures
            r == (self.monitors@.len() > 1),
    {
        self.monitors.len() > 1
    }

    pub fn contains_connector(&self, connector: &str) -> (r: bool)
        ensures
            r == has_connector(self@.monitors, connector@),
    {
        let mut j: usize = 0;
        while j < self.monitors.len()
            invariant
                j <= self.monitors@.len(),
                forall|t: int| 0 <= t < j ==> (#[trigger] self@.monitors[t]).connector != connector@,
            decreases self.monitors@.len() - j,
        {
            assert(self@.monitors[j as int] == self.monitors@[j as int]@);
            if str_eq(self.monitors[j].connector.as_str(), connector) {
                return true;
            }
            j += 1;
        }
        false
    }

    /// The mode resolution shared by the group, taken from the first member
    /// whose mode resolves.
    pub fn mode_size(&self, monitors: &[PhysicalMonitor]) -> (r: Option<(i32, i32)>)
        ensures
            r == mode_size_of(monitors_view(monitors@), self@.monitors),
    {
        let ghost mv = monitors_view(monitors@);
        assert(self@.monitors.skip(0) =~= self@.monitors);
        let mut j: usize = 0;
        while j < self.monitors.len()
            invariant
                j <= self.monitors@.len(),
                mv == monitors_view(monitors@),
                mode_size_of(mv, self@.monitors) == mode_size_of(mv, self@.monitors.skip(j as int)),
            decreases self.monitors@.len() - j,
        {
            let ghost rest = self@.monitors.skip(j as int);
            assert(rest[0] == self.monitors@[j as int]@);
            assert(rest.drop_first() =~= self@.monitors.skip(j as int + 1));
            match resolve_assignment(monitors, &self.monitors[j]) {
                Some((i, k)) => {
                    let m = &monitors[i].modes[k];
                    return Some((m.width, m.height));
                },
                None => {},
            }
            j += 1;
        }
        None
    }

    /// Size the logical display occupies in layout coordinates: the
    /// transformed mode size, divided by the scale in the logical layout
    /// mode.
    pub fn logical_size(&self, monitors: &[PhysicalMonitor], layout_mode: LayoutMode) -> (r: Option<
        (i32, i32),
    >)
        ensures
            r == logical_size_of(monitors_view(monitors@), self@, layout_mode),
    {
        match self.mode_size(monitors) {
            None => None,
            Some((w, h)) => {
                let (tw, th) = self.transform.apply_to(w, h);
                match layout_mode {
                    LayoutMode::Logical => Some(scale_size(tw, th, self.scale)),
                    LayoutMode::Physical => Some((tw, th)),
                }
            },
        }
    }

    pub fn rect(&self, monitors: &[PhysicalMonitor], layout_mode: LayoutMode) -> (r: Option<Rect>)
        ensures
            r == rect_of(monitors_view(monitors@), self@, layout_mode),
    {
        match self.logical_size(monitors, layout_mode) {
            None => None,
            Some((w, h)) => Some(Rect::new(self.x, self.y, w, h)),
        }
    }
}

/// Index of the first display holding a primary flag.
pub open spec fn primary_index(displays: Seq<DisplayView>) -> Option<int> {
    first_where(displays, |d: DisplayView| d.primary)
}

/// Index of the first display containing `connector`.
pub open spec fn group_index(displays: Seq<DisplayView>, connector: Seq<char>) -> Option<int> {
    first_where(displays, |d: DisplayView| has_connector(d.monitors, connector))
}

/// Connectors of all enabled monitors, display by display.
pub open spec fn enabled_of(displays: Seq<DisplayView>) -> Seq<Seq<char>>
    decreases displays.len(),
{
    if displays.len() == 0 {
        Seq::empty()
    } else {
        enabled_of(displays.drop_last()) + displays.last().monitors.map_values(
            |a: AssignmentView| a.connector,
        )
    }
}

/// Indices of the monitors that appear in no logical display.
pub open spec fn disabled_of(monitors: Seq<MonitorView>, displays: Seq<DisplayView>, n: int) -> Seq<
    int,
>
    decreases n,
{
    if n <= 0 {
        Seq::empty()
    } else {
        let prev = disabled_of(monitors, displays, n - 1);
        if enabled_of(displays).contains(monitors[n - 1].identity.connector@) {
            prev
        } else {
            prev.push(n - 1)
        }
    }
}

/// Disabled indices lie below `n`.
pub proof fn lemma_disabled_in_range(monitors: Seq<MonitorView>, displays: Seq<DisplayView>, n: int)
    ensures
        forall|k: int|
            0 <= k < disabled_of(monitors, displays, n).len() ==> 0 <= #[trigger] disabled_of(
                monitors,
                displays,
                n,
            )[k] < n,
    decreases n,
{
    if n > 0 {
        lemma_disabled_in_range(monitors, displays, n - 1);
        let prev = disabled_of(monitors, displays, n - 1);
        assert forall|k: int| 0 <= k < disabled_of(monitors, displays, n).len() implies 0
            <= #[trigger] disabled_of(monitors, displays, n)[k] < n by {
            if k < prev.len() {
                assert(disabled_of(monitors, displays, n)[k] == prev[k]);
            }
        }
    }
}

/// All assignments, display by display.
pub open spec fn assignments_of(displays: Seq<DisplayView>) -> Seq<AssignmentView>
    decreases displays.len(),
{
    if displays.len() == 0 {
        Seq::empty()
    } else {
        assignments_of(displays.drop_last()) + displays.last().monitors
    }
}

/// The mode ID of the first assignment on `connector`, in display order.
pub fn assigned_mode_id_exec(layout: &DisplayLayout, connector: &str) -> (r: Option<String>)
    ensures
        match first_where(assignments_of(layout@.displays), |a: AssignmentView| a.connector == connector@) {
            Some(k) => r matches Some(s) && s@ == assignments_of(layout@.displays)[k].mode_id,
            None => r is None,
        },
{
    let ghost d = layout@.displays;
    let ghost all = assignments_of(d);
    let mut i: usize = 0;
    while i < layout.logical_displays.len()
        invariant
            d == layout@.displays,
            all == assignments_of(d),
            i <= d.len(),
            forall|t: int| 0 <= t < assignments_of(d.take(i as int)).len() ==> (#[trigger] assignments_of(d.take(i as int))[t]).connector != connector@,
            forall|t: int| 0 <= t < assignments_of(d.take(i as int)).len() ==> assignments_of(d.take(i as int))[t] == #[trigger] all[t],
            assignments_of(d.take(i as int)).len() <= all.len(),
        decreases d.len() - i,
    {
        let g = &layout.logical_displays[i];
        assert(d[i as int] == g@);
        let ghost pre = assignments_of(d.take(i as int));
        proof {
            assert(d.take(i as int + 1).drop_last() =~= d.take(i as int));
            lemma_assignments_prefix(d, i as int + 1);
        }
        let mut j: usize = 0;
        while j < g.monitors.len()
            invariant
                d == layout@.displays,
                all == assignments_of(d),
                i < d.len(),
                d[i as int] == g@,
                pre == assignments_of(d.take(i as int)),
                assignments_of(d.take(i as int + 1)) == pre + g@.monitors,
                forall|t: int| 0 <= t < pre.len() ==> (#[trigger] pre[t]).connector != connector@,
                forall|t: int| 0 <= t < pre.len() + g@.monitors.len() ==> assignments_of(d.take(i as int + 1))[t] == #[trigger] all[t],
                pre.len() + g@.monitors.len() <= all.len(),
                j <= g.monitors@.len(),
                forall|t: int| 0 <= t < j ==> (#[trigger] g@.monitors[t]).connector != connector@,
            decreases g.monitors@.len() - j,
        {
            assert(g@.monitors[j as int] == g.monitors@[j as int]@);
            if str_eq(g.monitors[j].connector.as_str(), connector) {
                let ghost k = pre.len() + j;
                proof {
                    assert(all[k] == g@.monitors[j as int]);
                    assert forall|t: int| 0 <= t < k implies (#[trigger] all[t]).connector != connector@ by {
                        if t < pre.len() {
                            assert(all[t] == pre[t]);
                        } else {
                            assert(all[t] == g@.monitors[t - pre.len()]);
                        }
                    }
                    lemma_first_where_at(all, |a: AssignmentView| a.connector == connector@, k);
                }
                return Some(g.monitors[j].mode_id.clone());
            }
            j += 1;
        }
        i += 1;
    }
    proof {
        assert(d.take(d.len() as int) =~= d);
        lemma_first_where_none(all, |a: AssignmentView| a.connector == connector@);
    }
    None
}

/// The assignments of a prefix of the displays are a prefix of all
/// assignments.
pub proof fn lemma_assignments_prefix(d: Seq<DisplayView>, n: int)
    requires
        0 <= n <= d.len(),
    ensures
        assignments_of(d.take(n)).len() <= assignments_of(d).len(),
        forall|t: int| 0 <= t < assignments_of(d.take(n)).len() ==> assignments_of(d.take(n))[t] == #[trigger] assignments_of(d)[t],
    decreases d.len() - n,
{
    if n < d.len() {
        lemma_assignments_prefix(d, n + 1);
        assert(d.take(n + 1).drop_last() =~= d.take(n));
    } else {
        assert(d.take(n) =~= d);
    }
}

impl DisplayLayout {
    /// The logical display containing `connector`, if any.
    pub fn group_of(&self, connector: &str) -> (r: Option<(usize, &LogicalDisplay)>)
        ensures
            match group_index(self@.displays, connector@) {
                None => r is None,
                Some(i) => match r {
                    None => false,
                    Some((k, d)) => k as int == i && 0 <= i < self@.displays.len() && d@
                        == self@.displays[i],
                },
            },
    {
        match self.group_index_of(connector) {
            None => None,
            Some(i) => {
                assert(self@.displays[i as int] == self.logical_displays@[i as int]@);
                Some((i, &self.logical_displays[i]))
            },
        }
    }

    /// Index of the logical display containing `connector`, if any.
    pub fn group_index_of(&self, connector: &str) -> (r: Option<usize>)
        ensures
            match group_index(self@.displays, connector@) {
                None => r is None,
                Some(i) => r is Some && r->0 as int == i && 0 <= i < self@.displays.len(),
            },
    {
        let ghost dv = self@.displays;
        let mut i: usize = 0;
        while i < self.logical_displays.len()
            invariant
                dv == displays_view(self.logical_displays@),
                i <= self.logical_displays@.len(),
                forall|j: int| 0 <= j < i ==> !has_connector((#[trigger] dv[j]).monitors, connector@),
            decreases self.logical_displays@.len() - i,
        {
            assert(dv[i as int] == self.logical_displays@[i as int]@);
            if self.logical_displays[i].contains_connector(connector) {
                proof {
                    lemma_first_where_at(
                        dv,
                        |d: DisplayView| has_connector(d.monitors, connector@),
                        i as int,
                    );
                }
                return Some(i);
            }
            i += 1;
        }
        proof {
            lemma_first_where_none(dv, |d: DisplayView| has_connector(d.monitors, connector@));
        }
        None
    }

    /// The first logical display marked primary.
    pub fn primary(&self) -> (r: Option<&LogicalDisplay>)
        ensures
            match primary_index(self@.displays) {
                None => r is None,
                Some(i) => r is Some && r->0@ == self@.displays[i],
            },
    {
        match self.primary_index() {
            None => None,
            Some(i) => {
                assert(self@.displays[i as int] == self.logical_displays@[i as int]@);
                Some(&self.logical_displays[i])
            },
        }
    }

    /// Index of the first logical display marked primary.
    pub fn primary_index(&self) -> (r: Option<usize>)
        ensures
            match primary_index(self@.displays) {
                None => r is None,
                Some(i) => r is Some && r->0 as int == i && 0 <= i < self@.displays.len(),
            },
    {
        let ghost dv = self@.displays;
        let mut i: usize = 0;
        while i < self.logical_displays.len()
            invariant
                dv == displays_view(self.logical_displays@),
                i <= self.logical_displays@.len(),
                forall|j: int| 0 <= j < i ==> !(#[trigger] dv[j]).primary,
            decreases self.logical_displays@.len() - i,
        {
            assert(dv[i as int] == self.logical_displays@[i as int]@);
            if self.logical_displays[i].primary {
                proof {
                    lemma_first_where_at(dv, |d: DisplayView| d.primary, i as int);
                }
                return Some(i);
            }
            i += 1;
        }
        proof {
            lemma_first_where_none(dv, |d: DisplayView| d.primary);
        }
        None
    }

    /// Connectors of all enabled monitors.
    pub fn enabled_connectors(&self) -> (r: Vec<&String>)
        ensures
            r@.map_values(|s: &String| s@) == enabled_of(self@.displays),
    {
        let ghost dv = self@.displays;
        let mut out: Vec<&String> = Vec::new();
        let mut i: usize = 0;
        while i < self.logical_displays.len()
            invariant
                dv == displays_view(self.logical_displays@),
                i <= self.logical_displays@.len(),
                out@.map_values(|s: &String| s@) == enabled_of(dv.subrange(0, i as int)),
            decreases self.logical_displays@.len() - i,
        {
            let ghost before = out@.map_values(|s: &String| s@);
            let d = &self.logical_displays[i];
            assert(dv[i as int] == d@);
            let mut j: usize = 0;
            while j < d.monitors.len()
                invariant
                    j <= d.monitors@.len(),
                    out@.len() == before.len() + j,
                    forall|k: int| 0 <= k < before.len() ==> (#[trigger] out@[k])@ == before[k],
                    forall|t: int| 0 <= t < j ==> (#[trigger] out@[before.len() + t])@ == d@.monitors[t].connector,
                decreases d.monitors@.len() - j,
            {
                assert(d@.monitors[j as int] == d.monitors@[j as int]@);
                out.push(&d.monitors[j].connector);
                j += 1;
            }
            let ghost rhs = before + d@.monitors.map_values(|a: AssignmentView| a.connector);
            let ghost lhs = out@.map_values(|s: &String| s@);
            assert forall|k: int| 0 <= k < out@.len() implies #[trigger] lhs[k] == rhs[k] by {
                if k >= before.len() {
                    let t = k - before.len();
                    assert(out@[before.len() + t]@ == d@.monitors[t].connector);
                }
            }
            assert(lhs =~= rhs);
            i += 1;
            assert(dv.subrange(0, i as int).drop_last() =~= dv.subrange(0, i - 1));
        }
        assert(dv.subrange(0, dv.len() as int) =~= dv);
        out
    }

    /// Indices of the monitors this layout leaves disabled.
    pub fn disabled_monitor_indices(&self, monitors: &[PhysicalMonitor]) -> (r: Vec<usize>)
        ensures
            r@.map_values(|i: usize| i as int) == disabled_of(
                monitors_view(monitors@),
                self@.displays,
                monitors@.len() as int,
            ),
            forall|k: int| 0 <= k < r@.len() ==> #[trigger] r@[k] < monitors@.len(),
    {
        let ghost mv = monitors_view(monitors@);
        let enabled = self.enabled_connectors();
        let ghost en = enabled_of(self@.displays);
        let mut out: Vec<usize> = Vec::new();
        let mut i: usize = 0;
        while i < monitors.len()
            invariant
                mv == monitors_view(monitors@),
                enabled@.map_values(|s: &String| s@) == en,
                en == enabled_of(self@.displays),
                i <= monitors@.len(),
                out@.map_values(|i: usize| i as int) == disabled_of(mv, self@.displays, i as int),
                forall|k: int| 0 <= k < out@.len() ==> #[trigger] out@[k] < i,
            decreases monitors@.len() - i,
        {
            assert(mv[i as int] == monitors@[i as int]@);
            let mut found = false;
            let mut j: usize = 0;
            while j < enabled.len()
                invariant
                    enabled@.map_values(|s: &String| s@) == en,
                    i < monitors@.len(),
                    j <= enabled@.len(),
                    found == exists|t: int| 0 <= t < j && en[t] == monitors@[i as int].identity.connector@,
                decreases enabled@.len() - j,
            {
                assert(en[j as int] == enabled@[j as int]@);
                if *enabled[j] == monitors[i].identity.connector {
                    found = true;
                }
                j += 1;
            }
            if !found {
                out.push(i);
            }
            i += 1;
            assert(out@.map_values(|i: usize| i as int) =~= disabled_of(mv, self@.displays, i as int));
        }
        out
    }

    /// Monitors from `monitors` that this layout leaves disabled.
    pub fn disabled_monitors<'a>(&self, monitors: &'a [PhysicalMonitor]) -> (r: Vec<
        &'a PhysicalMonitor,
    >)
        ensures
            ({
                let idx = disabled_of(monitors_view(monitors@), self@.displays, monitors@.len() as int);
                &&& r@.len() == idx.len()
                &&& forall|k: int| 0 <= k < idx.len() ==> (#[trigger] r@[k])@ == monitors@[idx[k]]@
            }),
    {
        let idx = self.disabled_monitor_indices(monitors);
        let ghost gi = disabled_of(monitors_view(monitors@), self@.displays, monitors@.len() as int);
        let mut out: Vec<&'a PhysicalMonitor> = Vec::new();
        let mut k: usize = 0;
        while k < idx.len()
            invariant
                idx@.map_values(|i: usize| i as int) == gi,
                forall|t: int| 0 <= t < idx@.len() ==> #[trigger] idx@[t] < monitors@.len(),
                k <= idx@.len(),
                out@.len() == k,
                forall|t: int| 0 <= t < k ==> (#[trigger] out@[t])@ == monitors@[gi[t]]@,
            decreases idx@.len() - k,
        {
            assert(gi[k as int] == idx@[k as int] as int);
            out.push(&monitors[idx[k]]);
            k += 1;
        }
        out
    }

    /// Set exactly one primary logical display by index.
    pub fn set_primary(&mut self, index: usize)
        ensures
            final(self)@.layout_mode == old(self)@.layout_mode,
            final(self)@.displays.len() == old(self)@.displays.len(),
            forall|i: int|
                0 <= i < old(self)@.displays.len() ==> #[trigger] final(self)@.displays[i] == (
                DisplayView { primary: i == index, ..old(self)@.displays[i] }),
    {
        let ghost before = self@.displays;
        let mut i: usize = 0;
        while i < self.logical_displays.len()
            invariant
                i <= self.logical_displays@.len(),
                self.logical_displays@.len() == before.len(),
                self.layout_mode == old(self).layout_mode,
                before == old(self)@.displays,
                forall|j: int|
                    0 <= j < before.len() ==> #[trigger] displays_view(self.logical_displays@)[j]
                        == if j < i {
                        DisplayView { primary: j == index, ..before[j] }
                    } else {
                        before[j]
                    },
            decreases self.logical_displays@.len() - i,
        {
            let ghost prev = self.logical_displays@;
            let mut d = self.logical_displays[i].clone();
            d.primary = i == index;
            assert(displays_view(prev)[i as int] == before[i as int]);
            assert(d@ == DisplayView { primary: i == index, ..before[i as int] });
            self.logical_displays.set(i, d);
            assert forall|j: int| 0 <= j < before.len() implies #[trigger] displays_view(self.logical_displays@)[j]
                == if j < i + 1 {
                    DisplayView { primary: j == index, ..before[j] }
                } else {
                    before[j]
                } by {
                if j != i {
                    assert(self.logical_displays@[j] == prev[j]);
                    assert(displays_view(prev)[j] == prev[j]@);
                }
            }
            i += 1;
        }
    }
}

/// After `set_primary(i)` with a valid index, exactly display `i` is primary.
pub proof fn lemma_set_primary_unique(before: LayoutView, after: LayoutView, index: int)
    requires
        0 <= index < before.displays.len(),
        after.displays.len() == before.displays.len(),
        forall|i: int|
            0 <= i < before.displays.len() ==> #[trigger] after.displays[i] == (DisplayView {
                primary: i == index,
                ..before.displays[i]
            }),
    ensures
        primary_index(after.displays) == Some(index),
        forall|i: int| 0 <= i < after.displays.len() && (#[trigger] after.displays[i]).primary ==> i == index,
{
    assert(after.displays[index].primary);
    lemma_first_where_at(after.displays, |d: DisplayView| d.primary, index);
}

} // verus!
