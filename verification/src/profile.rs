//! Saved display profiles with conservative, identity-based matching.
//!
//! Refresh rates are in microhertz, stored rounded to whole millihertz;
//! scales are in millionths.
use vstd::prelude::*;
use crate::identity::{str_eq, MonitorIdentity};
use crate::layout::{
    find_monitor, find_mode, monitors_view, AssignmentView, DisplayLayout, DisplayView, LayoutMode,
    LayoutView, LogicalDisplay, MonitorAssignment, displays_view,
};
use crate::mode::ModeView;
use crate::seqs::first_where;
use crate::monitor::{ColorMode, MonitorView, PhysicalMonitor, RgbRange};
use crate::state::DisplayState;
use crate::text::{int_text, nat_digits, push_int, push_nat, push_str};
use crate::transform::Transform;
use crate::units::{abs_int, round_div, REFRESH_MATCH_EPS};

verus! {

/// EDID-based identity stored in profiles. The connector is a hint used
/// only to disambiguate physically identical monitors.
#[derive(Debug, PartialEq, Eq)]
pub struct IdentitySpec {
    pub vendor: String,
    pub product: String,
    pub serial: String,
    pub connector_hint: String,
}

pub ghost struct IdentityView {
    pub vendor: Seq<char>,
    pub product: Seq<char>,
    pub serial: Seq<char>,
    pub hint: Seq<char>,
}

impl View for IdentitySpec {
    type V = IdentityView;

    open spec fn view(&self) -> IdentityView {
        IdentityView {
            vendor: self.vendor@,
            product: self.product@,
            serial: self.serial@,
            hint: self.connector_hint@,
        }
    }
}

pub open spec fn identity_of(id: MonitorIdentity) -> IdentityView {
    IdentityView {
        vendor: id.vendor@,
        product: id.product@,
        serial: id.serial@,
        hint: id.connector@,
    }
}

/// `connector X` for monitors without an EDID model, else
/// `vendor product (X)`.
pub open spec fn describe_text(i: IdentityView) -> Seq<char> {
    if i.vendor.len() == 0 && i.product.len() == 0 {
        "connector "@ + i.hint
    } else {
        i.vendor + " "@ + i.product + " ("@ + i.hint + ")"@
    }
}

impl Clone for IdentitySpec {
    fn clone(&self) -> (r: Self)
        ensures
            r@ == self@,
    {
        IdentitySpec {
            vendor: self.vendor.clone(),
            product: self.product.clone(),
            serial: self.serial.clone(),
            connector_hint: self.connector_hint.clone(),
        }
    }
}

impl IdentitySpec {
    pub fn from_identity(identity: &MonitorIdentity) -> (r: Self)
        ensures
            r@ == identity_of(*identity),
    {
        IdentitySpec {
            vendor: identity.vendor.clone(),
            product: identity.product.clone(),
            serial: identity.serial.clone(),
            connector_hint: identity.connector.clone(),
        }
    }

    pub fn describe(&self) -> (r: String)
        ensures
            r@ == describe_text(self@),
    {
        let mut out = String::new();
        if self.vendor.as_str().is_empty() && self.product.as_str().is_empty() {
            push_str(&mut out, "connector ");
            push_str(&mut out, self.connector_hint.as_str());
        } else {
            push_str(&mut out, self.vendor.as_str());
            push_str(&mut out, " ");
            push_str(&mut out, self.product.as_str());
            push_str(&mut out, " (");
            push_str(&mut out, self.connector_hint.as_str());
            push_str(&mut out, ")");
        }
        assert(out@ =~= describe_text(self@));
        out
    }
}

/// A stored mode: resolution and refresh rate in millihertz (mode IDs are
/// not stable).
#[derive(Debug, Clone, Copy, PartialEq, Eq, Structural)]
pub struct ModeSpec {
    pub width: i32,
    pub height: i32,
    pub refresh_milli_hz: i64,
}

#[derive(Debug, PartialEq)]
pub struct ProfileMonitor {
    pub identity: IdentitySpec,
    pub mode: ModeSpec,
    pub color_mode: Option<ColorMode>,
    pub rgb_range: Option<RgbRange>,
}

pub ghost struct ProfileMonitorView {
    pub identity: IdentityView,
    pub mode: ModeSpec,
    pub color_mode: Option<ColorMode>,
    pub rgb_range: Option<RgbRange>,
}

impl View for ProfileMonitor {
    type V = ProfileMonitorView;

    open spec fn view(&self) -> ProfileMonitorView {
        ProfileMonitorView {
            identity: self.identity@,
            mode: self.mode,
            color_mode: self.color_mode,
            rgb_range: self.rgb_range,
        }
    }
}

#[derive(Debug, PartialEq)]
pub struct ProfileLogicalDisplay {
    pub x: i32,
    pub y: i32,
    pub scale: i64,
    pub transform: Transform,
    pub primary: bool,
    pub monitors: Vec<ProfileMonitor>,
}

pub ghost struct ProfileDisplayView {
    pub x: i32,
    pub y: i32,
    pub scale: i64,
    pub transform: Transform,
    pub primary: bool,
    pub monitors: Seq<ProfileMonitorView>,
}

pub open spec fn profile_monitors_view(s: Seq<ProfileMonitor>) -> Seq<ProfileMonitorView> {
    s.map_values(|m: ProfileMonitor| m@)
}

impl View for ProfileLogicalDisplay {
    type V = ProfileDisplayView;

    open spec fn view(&self) -> ProfileDisplayView {
        ProfileDisplayView {
            x: self.x,
            y: self.y,
            scale: self.scale,
            transform: self.transform,
            primary: self.primary,
            monitors: profile_monitors_view(self.monitors@),
        }
    }
}

/// A named, saved display configuration.
#[derive(Debug, PartialEq)]
pub struct DisplayProfile {
    pub id: String,
    pub name: String,
    pub layout_mode: LayoutMode,
    pub logical_displays: Vec<ProfileLogicalDisplay>,
    /// Monitors that were explicitly disabled when the profile was saved.
    pub disabled: Vec<IdentitySpec>,
    /// Unix timestamps (seconds).
    pub created_unix: u64,
    pub modified_unix: u64,
}

pub ghost struct ProfileView {
    pub id: Seq<char>,
    pub name: Seq<char>,
    pub layout_mode: LayoutMode,
    pub displays: Seq<ProfileDisplayView>,
    pub disabled: Seq<IdentityView>,
    pub created_unix: u64,
    pub modified_unix: u64,
}

pub open spec fn profile_displays_view(s: Seq<ProfileLogicalDisplay>) -> Seq<ProfileDisplayView> {
    s.map_values(|d: ProfileLogicalDisplay| d@)
}

pub open spec fn identities_view(s: Seq<IdentitySpec>) -> Seq<IdentityView> {
    s.map_values(|i: IdentitySpec| i@)
}

impl View for DisplayProfile {
    type V = ProfileView;

    open spec fn view(&self) -> ProfileView {
        ProfileView {
            id: self.id@,
            name: self.name@,
            layout_mode: self.layout_mode,
            displays: profile_displays_view(self.logical_displays@),
            disabled: identities_view(self.disabled@),
            created_unix: self.created_unix,
            modified_unix: self.modified_unix,
        }
    }
}

impl Clone for ProfileMonitor {
    fn clone(&self) -> (r: Self)
        ensures
            r@ == self@,
    {
        ProfileMonitor {
            identity: self.identity.clone(),
            mode: self.mode,
            color_mode: self.color_mode,
            rgb_range: self.rgb_range,
        }
    }
}

/// Copies of a list of profile monitors.
fn clone_profile_monitors(v: &Vec<ProfileMonitor>) -> (r: Vec<ProfileMonitor>)
    ensures
        profile_monitors_view(r@) == profile_monitors_view(v@),
{
    let mut out: Vec<ProfileMonitor> = Vec::new();
    let mut i: usize = 0;
    while i < v.len()
        invariant
            i <= v@.len(),
            out@.len() == i,
            forall|j: int| 0 <= j < i ==> (#[trigger] out@[j])@ == v@[j]@,
        decreases v@.len() - i,
    {
        out.push(v[i].clone());
        i += 1;
    }
    assert(profile_monitors_view(out@) =~= profile_monitors_view(v@));
    out
}

impl Clone for ProfileLogicalDisplay {
    fn clone(&self) -> (r: Self)
        ensures
            r@ == self@,
    {
        ProfileLogicalDisplay {
            x: self.x,
            y: self.y,
            scale: self.scale,
            transform: self.transform,
            primary: self.primary,
            monitors: clone_profile_monitors(&self.monitors),
        }
    }
}

/// Copies of a list of profile displays.
fn clone_profile_displays(v: &Vec<ProfileLogicalDisplay>) -> (r: Vec<ProfileLogicalDisplay>)
    ensures
        profile_displays_view(r@) == profile_displays_view(v@),
{
    let mut out: Vec<ProfileLogicalDisplay> = Vec::new();
    let mut i: usize = 0;
    while i < v.len()
        invariant
            i <= v@.len(),
            out@.len() == i,
            forall|j: int| 0 <= j < i ==> (#[trigger] out@[j])@ == v@[j]@,
        decreases v@.len() - i,
    {
        out.push(v[i].clone());
        i += 1;
    }
    assert(profile_displays_view(out@) =~= profile_displays_view(v@));
    out
}

/// Copies of a list of identities.
fn clone_identities(v: &Vec<IdentitySpec>) -> (r: Vec<IdentitySpec>)
    ensures
        identities_view(r@) == identities_view(v@),
{
    let mut out: Vec<IdentitySpec> = Vec::new();
    let mut i: usize = 0;
    while i < v.len()
        invariant
            i <= v@.len(),
            out@.len() == i,
            forall|j: int| 0 <= j < i ==> (#[trigger] out@[j])@ == v@[j]@,
        decreases v@.len() - i,
    {
        out.push(v[i].clone());
        i += 1;
    }
    assert(identities_view(out@) =~= identities_view(v@));
    out
}

impl Clone for DisplayProfile {
    fn clone(&self) -> (r: Self)
        ensures
            r@ == self@,
    {
        DisplayProfile {
            id: self.id.clone(),
            name: self.name.clone(),
            layout_mode: self.layout_mode,
            logical_displays: clone_profile_displays(&self.logical_displays),
            disabled: clone_identities(&self.disabled),
            created_unix: self.created_unix,
            modified_unix: self.modified_unix,
        }
    }
}

// ---------------------------------------------------------------------
// Capturing a profile.
// ---------------------------------------------------------------------


/// The profile entry of an assignment whose monitor and mode exist.
pub open spec fn profile_monitor_of(ms: Seq<MonitorView>, a: AssignmentView) -> Option<ProfileMonitorView> {
    match find_monitor(ms, a.connector) {
        None => None,
        Some(i) => match find_mode(ms[i].modes, a.mode_id) {
            None => None,
            Some(k) => Some(
                ProfileMonitorView {
                    identity: identity_of(ms[i].identity),
                    mode: ModeSpec {
                        width: ms[i].modes[k].width,
                        height: ms[i].modes[k].height,
                        refresh_milli_hz: round_div(ms[i].modes[k].refresh as int, 1000) as i64,
                    },
                    color_mode: a.color_mode,
                    rgb_range: a.rgb_range,
                },
            ),
        },
    }
}

pub open spec fn profile_display_of(ms: Seq<MonitorView>, d: DisplayView) -> ProfileDisplayView {
    ProfileDisplayView {
        x: d.x,
        y: d.y,
        scale: d.scale,
        transform: d.transform,
        primary: d.primary,
        monitors: d.monitors.filter_map(|a: AssignmentView| profile_monitor_of(ms, a)),
    }
}

/// A refresh rate in microhertz as whole millihertz, rounded half away
/// from zero.
fn to_milli_exec(v: i64) -> (r: i64)
    ensures
        r == round_div(v as int, 1000),
{
    let n: i128 = v as i128;
    let q: i128 = if n >= 0 {
        (2 * n + 1000) / 2000
    } else {
        -((2 * (-n) + 1000) / 2000)
    };
    proof {
        if n >= 0 {
            assert(0 <= (2 * n + 1000) / 2000 <= n / 1000 + 1) by (nonlinear_arith)
                requires
                    n >= 0,
            ;
        } else {
            assert(0 <= (2 * (-n) + 1000) / 2000 <= (-n) / 1000 + 1) by (nonlinear_arith)
                requires
                    n < 0,
            ;
        }
    }
    q as i64
}

fn profile_monitor_for(state: &DisplayState, a: &MonitorAssignment) -> (r: Option<ProfileMonitor>)
    ensures
        match profile_monitor_of(state.monitors_v(), a@) {
            None => r is None,
            Some(p) => r is Some && r->0@ == p,
        },
{
    match state.monitor(a.connector.as_str()) {
        None => None,
        Some(m) => match m.find_mode_index(a.mode_id.as_str()) {
            None => None,
            Some(k) => {
                let md = &m.modes[k];
                assert(m@.modes[k as int] == md@);
                Some(
                    ProfileMonitor {
                        identity: IdentitySpec::from_identity(&m.identity),
                        mode: ModeSpec {
                            width: md.width,
                            height: md.height,
                            refresh_milli_hz: to_milli_exec(md.refresh_micro_hz),
                        },
                        color_mode: a.color_mode,
                        rgb_range: a.rgb_range,
                    },
                )
            },
        },
    }
}

fn profile_display_for(state: &DisplayState, d: &LogicalDisplay) -> (r: ProfileLogicalDisplay)
    ensures
        r@ == profile_display_of(state.monitors_v(), d@),
{
    let ghost f = |a: AssignmentView| profile_monitor_of(state.monitors_v(), a);
    let ghost av = d@.monitors;
    let mut out: Vec<ProfileMonitor> = Vec::new();
    let mut j: usize = 0;
    while j < d.monitors.len()
        invariant
            f == (|a: AssignmentView| profile_monitor_of(state.monitors_v(), a)),
            av == d@.monitors,
            j <= av.len(),
            profile_monitors_view(out@) == av.take(j as int).filter_map(f),
        decreases av.len() - j,
    {
        assert(av[j as int] == d.monitors@[j as int]@);
        proof {
            av.lemma_filter_map_take_succ(f, j as int);
        }
        let ghost before = out@;
        match profile_monitor_for(state, &d.monitors[j]) {
            Some(p) => {
                out.push(p);
                assert(profile_monitors_view(out@) =~= profile_monitors_view(before).push(p@));
            },
            None => {},
        }
        j += 1;
        assert(profile_monitors_view(out@) =~= av.take(j as int).filter_map(f));
    }
    assert(av.take(av.len() as int) =~= av);
    ProfileLogicalDisplay {
        x: d.x,
        y: d.y,
        scale: d.scale,
        transform: d.transform,
        primary: d.primary,
        monitors: out,
    }
}

impl DisplayProfile {
    /// Captures the given state as a profile.
    pub fn from_state(id: String, name: String, state: &DisplayState, now_unix: u64) -> (r: Self)
        ensures
            r@.id == id@,
            r@.name == name@,
            r@.layout_mode == state.layout.layout_mode,
            r@.displays == state.layout@.displays.map_values(
                |d: DisplayView| profile_display_of(state.monitors_v(), d),
            ),
            r@.disabled == crate::layout::disabled_of(
                state.monitors_v(),
                state.layout@.displays,
                state.monitors@.len() as int,
            ).map_values(|k: int| identity_of(state.monitors_v()[k].identity)),
            r@.created_unix == now_unix,
            r@.modified_unix == now_unix,
            r@.displays.len() == state.layout@.displays.len(),
            forall|i: int|
                0 <= i < r@.displays.len() ==> {
                    let p = #[trigger] r@.displays[i];
                    let d = state.layout@.displays[i];
                    p.x == d.x && p.y == d.y && p.scale == d.scale && p.transform == d.transform && p.primary
                        == d.primary
                },
    {
        let ghost dv = state.layout@.displays;
        let mut displays: Vec<ProfileLogicalDisplay> = Vec::new();
        let mut i: usize = 0;
        while i < state.layout.logical_displays.len()
            invariant
                dv == state.layout@.displays,
                i <= dv.len(),
                profile_displays_view(displays@) == dv.take(i as int).map_values(
                    |d: DisplayView| profile_display_of(state.monitors_v(), d),
                ),
            decreases dv.len() - i,
        {
            assert(dv[i as int] == state.layout.logical_displays@[i as int]@);
            let pd = profile_display_for(state, &state.layout.logical_displays[i]);
            let ghost before = displays@;
            displays.push(pd);
            assert(profile_displays_view(displays@) =~= profile_displays_view(before).push(pd@));
            assert(dv.take(i as int + 1) =~= dv.take(i as int).push(dv[i as int]));
            i += 1;
            assert(profile_displays_view(displays@) =~= dv.take(i as int).map_values(
                |d: DisplayView| profile_display_of(state.monitors_v(), d),
            ));
        }
        assert(dv.take(dv.len() as int) =~= dv);
        let off = state.disabled_monitors();
        let ghost idx = crate::layout::disabled_of(state.monitors_v(), dv, state.monitors@.len() as int);
        proof {
            crate::layout::lemma_disabled_in_range(state.monitors_v(), dv, state.monitors@.len() as int);
        }
        let mut disabled: Vec<IdentitySpec> = Vec::new();
        let mut k: usize = 0;
        while k < off.len()
            invariant
                idx == crate::layout::disabled_of(state.monitors_v(), dv, state.monitors@.len() as int),
                forall|t: int| 0 <= t < idx.len() ==> 0 <= #[trigger] idx[t] < state.monitors@.len(),
                off@.len() == idx.len(),
                forall|t: int| 0 <= t < idx.len() ==> (#[trigger] off@[t])@ == state.monitors@[idx[t]]@,
                k <= off@.len(),
                identities_view(disabled@) == idx.take(k as int).map_values(
                    |t: int| identity_of(state.monitors_v()[t].identity),
                ),
            decreases off@.len() - k,
        {
            let m = off[k];
            proof {
                crate::layout::lemma_disabled_in_range(state.monitors_v(), dv, state.monitors@.len() as int);
                assert(state.monitors_v()[idx[k as int]] == state.monitors@[idx[k as int]]@);
            }
            let ghost before = disabled@;
            let sp = IdentitySpec::from_identity(&m.identity);
            assert(sp@ == identity_of(state.monitors_v()[idx[k as int]].identity));
            disabled.push(sp);
            assert(identities_view(disabled@) =~= identities_view(before).push(sp@));
            assert(idx.take(k as int + 1) =~= idx.take(k as int).push(idx[k as int]));
            k += 1;
            assert(identities_view(disabled@) =~= idx.take(k as int).map_values(
                |t: int| identity_of(state.monitors_v()[t].identity),
            ));
        }
        assert(idx.take(idx.len() as int) =~= idx);
        DisplayProfile {
            id,
            name,
            layout_mode: state.layout.layout_mode,
            logical_displays: displays,
            disabled,
            created_unix: now_unix,
            modified_unix: now_unix,
        }
    }

    /// Identities this profile involves (enabled monitors only), display by
    /// display.
    pub fn required_identities(&self) -> (r: Vec<&IdentitySpec>)
        ensures
            r@.map_values(|i: &IdentitySpec| i@) == required_of(self@.displays),
    {
        let ghost dv = self@.displays;
        let mut out: Vec<&IdentitySpec> = Vec::new();
        let mut i: usize = 0;
        while i < self.logical_displays.len()
            invariant
                dv == self@.displays,
                i <= dv.len(),
                out@.map_values(|x: &IdentitySpec| x@) == required_of(dv.take(i as int)),
            decreases dv.len() - i,
        {
            let d = &self.logical_displays[i];
            assert(dv[i as int] == d@);
            let ghost base = out@.map_values(|x: &IdentitySpec| x@);
            let mut j: usize = 0;
            while j < d.monitors.len()
                invariant
                    j <= d.monitors@.len(),
                    out@.map_values(|x: &IdentitySpec| x@) == base + d@.monitors.take(j as int).map_values(
                        |m: ProfileMonitorView| m.identity,
                    ),
                decreases d.monitors@.len() - j,
            {
                assert(d@.monitors[j as int] == d.monitors@[j as int]@);
                let ghost before = out@;
                out.push(&d.monitors[j].identity);
                assert(out@.map_values(|x: &IdentitySpec| x@) =~= before.map_values(|x: &IdentitySpec| x@).push(
                    d@.monitors[j as int].identity,
                ));
                assert(d@.monitors.take(j as int + 1) =~= d@.monitors.take(j as int).push(d@.monitors[j as int]));
                j += 1;
                assert(out@.map_values(|x: &IdentitySpec| x@) =~= base + d@.monitors.take(j as int).map_values(
                    |m: ProfileMonitorView| m.identity,
                ));
            }
            proof {
                assert(d@.monitors.take(d@.monitors.len() as int) =~= d@.monitors);
                assert(dv.take(i as int + 1).drop_last() =~= dv.take(i as int));
            }
            i += 1;
        }
        assert(dv.take(dv.len() as int) =~= dv);
        out
    }
}

/// Identities of all profile monitors, display by display.
pub open spec fn required_of(ds: Seq<ProfileDisplayView>) -> Seq<IdentityView>
    decreases ds.len(),
{
    if ds.len() == 0 {
        Seq::empty()
    } else {
        required_of(ds.drop_last()) + ds.last().monitors.map_values(|m: ProfileMonitorView| m.identity)
    }
}

// ---------------------------------------------------------------------
// Problems.
// ---------------------------------------------------------------------

/// Why (part of) a profile could not be applied.
#[derive(Debug, PartialEq)]
pub enum ProfileProblem {
    Missing { identity: IdentitySpec, similar_model_present: bool },
    Ambiguous { identity: IdentitySpec, candidates: Vec<String> },
    ModeMissing { identity: IdentitySpec, mode: ModeSpec },
    UnexpectedMonitor { connector: String, name: String },
}

pub ghost enum ProfileProblemView {
    Missing { identity: IdentityView, similar_model_present: bool },
    Ambiguous { identity: IdentityView, candidates: Seq<Seq<char>> },
    ModeMissing { identity: IdentityView, mode: ModeSpec },
    UnexpectedMonitor { connector: Seq<char>, name: Seq<char> },
}

pub open spec fn strings_view(s: Seq<String>) -> Seq<Seq<char>> {
    s.map_values(|x: String| x@)
}

impl View for ProfileProblem {
    type V = ProfileProblemView;

    open spec fn view(&self) -> ProfileProblemView {
        match self {
            ProfileProblem::Missing { identity, similar_model_present } => ProfileProblemView::Missing {
                identity: identity@,
                similar_model_present: *similar_model_present,
            },
            ProfileProblem::Ambiguous { identity, candidates } => ProfileProblemView::Ambiguous {
                identity: identity@,
                candidates: strings_view(candidates@),
            },
            ProfileProblem::ModeMissing { identity, mode } => ProfileProblemView::ModeMissing {
                identity: identity@,
                mode: *mode,
            },
            ProfileProblem::UnexpectedMonitor { connector, name } => ProfileProblemView::UnexpectedMonitor {
                connector: connector@,
                name: name@,
            },
        }
    }
}

pub open spec fn profile_problems_view(s: Seq<ProfileProblem>) -> Seq<ProfileProblemView> {
    s.map_values(|p: ProfileProblem| p@)
}

/// Connectors joined with `, `.
pub open spec fn join_list(parts: Seq<Seq<char>>) -> Seq<char>
    decreases parts.len(),
{
    if parts.len() == 0 {
        Seq::empty()
    } else if parts.len() == 1 {
        parts[0]
    } else {
        join_list(parts.drop_last()) + ", "@ + parts.last()
    }
}

/// A rate in millihertz with three decimals (`59.997`).
pub open spec fn milli_text(v: int) -> Seq<char> {
    let a = abs_int(v);
    (if v < 0 {
        "-"@
    } else {
        Seq::empty()
    }) + nat_digits((a / 1000) as nat) + "."@ + seq![
        crate::mode::digit_spec((a / 100 % 10) as nat),
        crate::mode::digit_spec((a / 10 % 10) as nat),
        crate::mode::digit_spec((a % 10) as nat),
    ]
}

pub open spec fn profile_problem_text(p: ProfileProblemView) -> Seq<char> {
    match p {
        ProfileProblemView::Missing { identity, similar_model_present } => describe_text(identity)
            + " is not connected"@ + (if similar_model_present {
            ", but another monitor of the same model is"@
        } else {
            Seq::empty()
        }) + "."@,
        ProfileProblemView::Ambiguous { identity, candidates } => describe_text(identity)
            + " matches several connected monitors ("@ + join_list(candidates)
            + "); the profile cannot be applied unambiguously."@,
        ProfileProblemView::ModeMissing { identity, mode } => describe_text(identity)
            + " no longer offers "@ + int_text(mode.width as int) + "×"@ + int_text(mode.height as int)
            + " at "@ + milli_text(mode.refresh_milli_hz as int) + " Hz."@,
        ProfileProblemView::UnexpectedMonitor { connector, name } => name + " ("@ + connector
            + ") is connected but not part of this profile; applying it as saved would turn that display off."@,
    }
}

fn push_milli(out: &mut String, v: i64)
    ensures
        final(out)@ == old(out)@ + milli_text(v as int),
{
    let a: u64 = if v < 0 {
        if v == i64::MIN {
            9223372036854775808u64
        } else {
            (-v) as u64
        }
    } else {
        v as u64
    };
    assert(a == abs_int(v as int));
    if v < 0 {
        push_str(out, "-");
    }
    push_nat(out, a / 1000);
    push_str(out, ".");
    let d1 = crate::mode::digit_char_exec((a / 100 % 10) as u32);
    let d2 = crate::mode::digit_char_exec((a / 10 % 10) as u32);
    let d3 = crate::mode::digit_char_exec((a % 10) as u32);
    crate::text::push_char(out, d1);
    crate::text::push_char(out, d2);
    crate::text::push_char(out, d3);
    proof {
        reveal_strlit("-");
        assert(out@ =~= old(out)@ + milli_text(v as int));
    }
}

impl ProfileProblem {
    /// Human-readable explanation.
    pub fn message(&self) -> (r: String)
        ensures
            r@ == profile_problem_text(self@),
    {
        let mut out = String::new();
        match self {
            ProfileProblem::Missing { identity, similar_model_present } => {
                let d = identity.describe();
                push_str(&mut out, d.as_str());
                push_str(&mut out, " is not connected");
                if *similar_model_present {
                    push_str(&mut out, ", but another monitor of the same model is");
                }
                push_str(&mut out, ".");
            },
            ProfileProblem::Ambiguous { identity, candidates } => {
                let d = identity.describe();
                push_str(&mut out, d.as_str());
                push_str(&mut out, " matches several connected monitors (");
                let ghost head = out@;
                let ghost cv = strings_view(candidates@);
                let mut k: usize = 0;
                while k < candidates.len()
                    invariant
                        cv == strings_view(candidates@),
                        k <= cv.len(),
                        out@ == head + join_list(cv.take(k as int)),
                    decreases cv.len() - k,
                {
                    proof {
                        reveal_strlit(", ");
                        let t1 = cv.take(k as int + 1);
                        assert(t1.drop_last() =~= cv.take(k as int));
                        assert(t1.last() == candidates@[k as int]@);
                    }
                    if k > 0 {
                        push_str(&mut out, ", ");
                    }
                    push_str(&mut out, candidates[k].as_str());
                    k += 1;
                    assert(out@ =~= head + join_list(cv.take(k as int)));
                }
                assert(cv.take(cv.len() as int) =~= cv);
                push_str(&mut out, "); the profile cannot be applied unambiguously.");
            },
            ProfileProblem::ModeMissing { identity, mode } => {
                let d = identity.describe();
                push_str(&mut out, d.as_str());
                push_str(&mut out, " no longer offers ");
                push_int(&mut out, mode.width as i64);
                push_str(&mut out, "×");
                push_int(&mut out, mode.height as i64);
                push_str(&mut out, " at ");
                push_milli(&mut out, mode.refresh_milli_hz);
                push_str(&mut out, " Hz.");
            },
            ProfileProblem::UnexpectedMonitor { connector, name } => {
                push_str(&mut out, name.as_str());
                push_str(&mut out, " (");
                push_str(&mut out, connector.as_str());
                push_str(
                    &mut out,
                    ") is connected but not part of this profile; applying it as saved would turn that display off.",
                );
            },
        }
        assert(out@ =~= profile_problem_text(self@));
        out
    }
}

// ---------------------------------------------------------------------
// Resolving a profile against the connected monitors.
// ---------------------------------------------------------------------

/// Outcome of matching a profile identity against the available monitors.
pub enum MonitorMatchOutcome<'a> {
    Unique(&'a PhysicalMonitor),
    Ambiguous(Vec<String>),
    Missing { similar_model: bool },
}

pub ghost enum MatchView {
    Unique(MonitorView),
    Ambiguous(Seq<Seq<char>>),
    Missing(bool),
}

pub open spec fn outcome_view(o: MonitorMatchOutcome) -> MatchView {
    match o {
        MonitorMatchOutcome::Unique(m) => MatchView::Unique(m@),
        MonitorMatchOutcome::Ambiguous(c) => MatchView::Ambiguous(strings_view(c@)),
        MonitorMatchOutcome::Missing { similar_model } => MatchView::Missing(similar_model),
    }
}

pub open spec fn conn(m: MonitorView) -> Seq<char> {
    m.identity.connector@
}

/// Same vendor, product and serial.
pub open spec fn same_edid(m: MonitorView, i: IdentityView) -> bool {
    m.identity.vendor@ == i.vendor && m.identity.product@ == i.product && m.identity.serial@ == i.serial
}

/// Same vendor and product.
pub open spec fn same_model(m: MonitorView, i: IdentityView) -> bool {
    m.identity.vendor@ == i.vendor && m.identity.product@ == i.product
}

/// Monitors not yet claimed by an earlier profile monitor.
pub open spec fn available(ms: Seq<MonitorView>, used: Seq<Seq<char>>) -> Seq<MonitorView> {
    ms.filter(|m: MonitorView| !used.contains(conn(m)))
}

/// How a profile identity matches: an EDID-less identity by connector;
/// otherwise by the full EDID triple, with the connector hint breaking ties
/// between identical monitors.
pub open spec fn match_spec(i: IdentityView, ms: Seq<MonitorView>, used: Seq<Seq<char>>) -> MatchView {
    let av = available(ms, used);
    if i.vendor.len() == 0 && i.product.len() == 0 && i.serial.len() == 0 {
        match first_where(av, |m: MonitorView| conn(m) == i.hint) {
            Some(k) => MatchView::Unique(av[k]),
            None => MatchView::Missing(false),
        }
    } else {
        let full = av.filter(|m: MonitorView| same_edid(m, i));
        if full.len() == 1 {
            MatchView::Unique(full[0])
        } else if full.len() == 0 {
            MatchView::Missing(exists|k: int| 0 <= k < av.len() && same_model(#[trigger] av[k], i))
        } else {
            match first_where(full, |m: MonitorView| conn(m) == i.hint) {
                Some(k) => MatchView::Unique(full[k]),
                None => MatchView::Ambiguous(full.map_values(|m: MonitorView| conn(m))),
            }
        }
    }
}

fn string_in(v: &[String], c: &String) -> (r: bool)
    ensures
        r == strings_view(v@).contains(c@),
{
    let ghost vv = strings_view(v@);
    let mut k: usize = 0;
    while k < v.len()
        invariant
            vv == strings_view(v@),
            k <= v@.len(),
            forall|t: int| 0 <= t < k ==> vv[t] != c@,
        decreases v@.len() - k,
    {
        assert(vv[k as int] == v@[k as int]@);
        if str_eq(v[k].as_str(), c.as_str()) {
            return true;
        }
        k += 1;
    }
    false
}

fn available_exec<'a>(monitors: &'a [PhysicalMonitor], used: &[String]) -> (r: Vec<&'a PhysicalMonitor>)
    ensures
        crate::mirror::monitor_refs_view(r@) == available(monitors_view(monitors@), strings_view(used@)),
{
    let ghost mv = monitors_view(monitors@);
    let ghost uv = strings_view(used@);
    let ghost pred = |m: MonitorView| !uv.contains(conn(m));
    let mut out: Vec<&PhysicalMonitor> = Vec::new();
    let mut k: usize = 0;
    while k < monitors.len()
        invariant
            mv == monitors_view(monitors@),
            uv == strings_view(used@),
            pred == (|m: MonitorView| !uv.contains(conn(m))),
            k <= mv.len(),
            crate::mirror::monitor_refs_view(out@) == mv.take(k as int).filter(pred),
        decreases mv.len() - k,
    {
        let m = &monitors[k];
        assert(mv[k as int] == m@);
        proof {
            reveal(Seq::filter);
            let t1 = mv.take(k as int + 1);
            assert(t1.drop_last() =~= mv.take(k as int));
            assert(t1.last() == m@);
        }
        let ghost before = out@;
        if !string_in(used, m.connector()) {
            out.push(m);
            assert(crate::mirror::monitor_refs_view(out@) =~= crate::mirror::monitor_refs_view(before).push(m@));
        }
        k += 1;
        assert(crate::mirror::monitor_refs_view(out@) =~= mv.take(k as int).filter(pred));
    }
    assert(mv.take(mv.len() as int) =~= mv);
    out
}

fn first_on_connector<'a>(v: &Vec<&'a PhysicalMonitor>, hint: &String) -> (r: Option<&'a PhysicalMonitor>)
    ensures
        match first_where(crate::mirror::monitor_refs_view(v@), |m: MonitorView| conn(m) == hint@) {
            Some(k) => r matches Some(m) && m@ == crate::mirror::monitor_refs_view(v@)[k],
            None => r is None,
        },
{
    let ghost vv = crate::mirror::monitor_refs_view(v@);
    let mut k: usize = 0;
    while k < v.len()
        invariant
            vv == crate::mirror::monitor_refs_view(v@),
            k <= vv.len(),
            forall|t: int| 0 <= t < k ==> conn(#[trigger] vv[t]) != hint@,
        decreases vv.len() - k,
    {
        assert(vv[k as int] == v@[k as int]@);
        if str_eq(v[k].connector().as_str(), hint.as_str()) {
            proof {
                crate::seqs::lemma_first_where_at(vv, |m: MonitorView| conn(m) == hint@, k as int);
            }
            return Some(v[k]);
        }
        k += 1;
    }
    proof {
        crate::seqs::lemma_first_where_none(vv, |m: MonitorView| conn(m) == hint@);
    }
    None
}

/// Matches a profile identity against the monitors not yet `used`.
pub fn resolve_monitor<'a>(spec: &IdentitySpec, monitors: &'a [PhysicalMonitor], used: &[String]) -> (r: MonitorMatchOutcome<'a>)
    ensures
        outcome_view(r) == match_spec(spec@, monitors_view(monitors@), strings_view(used@)),
{
    let ghost ms = monitors_view(monitors@);
    let ghost uv = strings_view(used@);
    let avail = available_exec(monitors, used);
    let ghost av = crate::mirror::monitor_refs_view(avail@);
    if spec.vendor.as_str().is_empty() && spec.product.as_str().is_empty() && spec.serial.as_str().is_empty() {
        return match first_on_connector(&avail, &spec.connector_hint) {
            Some(m) => MonitorMatchOutcome::Unique(m),
            None => MonitorMatchOutcome::Missing { similar_model: false },
        };
    }
    let ghost pred = |m: MonitorView| same_edid(m, spec@);
    let mut full: Vec<&PhysicalMonitor> = Vec::new();
    let mut similar = false;
    let mut k: usize = 0;
    while k < avail.len()
        invariant
            av == crate::mirror::monitor_refs_view(avail@),
            pred == (|m: MonitorView| same_edid(m, spec@)),
            k <= av.len(),
            crate::mirror::monitor_refs_view(full@) == av.take(k as int).filter(pred),
            similar == exists|t: int| 0 <= t < k && same_model(#[trigger] av[t], spec@),
        decreases av.len() - k,
    {
        let m = avail[k];
        assert(av[k as int] == m@);
        proof {
            reveal(Seq::filter);
            let t1 = av.take(k as int + 1);
            assert(t1.drop_last() =~= av.take(k as int));
            assert(t1.last() == m@);
        }
        let v_eq = str_eq(m.identity.vendor.as_str(), spec.vendor.as_str());
        let p_eq = str_eq(m.identity.product.as_str(), spec.product.as_str());
        let s_eq = str_eq(m.identity.serial.as_str(), spec.serial.as_str());
        if v_eq && p_eq {
            similar = true;
        }
        let ghost before = full@;
        if v_eq && p_eq && s_eq {
            full.push(m);
            assert(crate::mirror::monitor_refs_view(full@) =~= crate::mirror::monitor_refs_view(before).push(m@));
        }
        k += 1;
        assert(crate::mirror::monitor_refs_view(full@) =~= av.take(k as int).filter(pred));
    }
    assert(av.take(av.len() as int) =~= av);
    let ghost fv = crate::mirror::monitor_refs_view(full@);
    if full.len() == 1 {
        assert(fv[0] == full@[0]@);
        return MonitorMatchOutcome::Unique(full[0]);
    }
    if full.len() == 0 {
        return MonitorMatchOutcome::Missing { similar_model: similar };
    }
    match first_on_connector(&full, &spec.connector_hint) {
        Some(m) => MonitorMatchOutcome::Unique(m),
        None => {
            let mut names: Vec<String> = Vec::new();
            let mut j: usize = 0;
            while j < full.len()
                invariant
                    fv == crate::mirror::monitor_refs_view(full@),
                    j <= fv.len(),
                    strings_view(names@) == fv.take(j as int).map_values(|m: MonitorView| conn(m)),
                decreases fv.len() - j,
            {
                assert(fv[j as int] == full@[j as int]@);
                let ghost before = names@;
                names.push(full[j].connector().clone());
                assert(strings_view(names@) =~= strings_view(before).push(conn(fv[j as int])));
                assert(fv.take(j as int + 1) =~= fv.take(j as int).push(fv[j as int]));
                j += 1;
                assert(strings_view(names@) =~= fv.take(j as int).map_values(|m: MonitorView| conn(m)));
            }
            assert(fv.take(fv.len() as int) =~= fv);
            MonitorMatchOutcome::Ambiguous(names)
        },
    }
}

/// The mode matches the stored resolution and its rate is within the
/// profile tolerance.
pub open spec fn mode_fits(m: ModeView, s: ModeSpec) -> bool {
    m.width == s.width && m.height == s.height && abs_int(m.refresh - s.refresh_milli_hz * 1000)
        <= REFRESH_MATCH_EPS
}

pub open spec fn mode_dist(m: ModeView, s: ModeSpec) -> int {
    abs_int(m.refresh - s.refresh_milli_hz * 1000)
}

/// Index of the first closest fitting mode among the first `n`.
pub open spec fn best_fit_upto(modes: Seq<ModeView>, s: ModeSpec, n: int) -> Option<int>
    decreases n,
{
    if n <= 0 {
        None
    } else {
        let p = best_fit_upto(modes, s, n - 1);
        if mode_fits(modes[n - 1], s) && (p is None || mode_dist(modes[n - 1], s) < mode_dist(
            modes[p->0],
            s,
        )) {
            Some(n - 1)
        } else {
            p
        }
    }
}

/// ID of the mode a stored mode resolves to.
pub open spec fn resolve_mode_spec(m: MonitorView, s: ModeSpec) -> Option<Seq<char>> {
    match best_fit_upto(m.modes, s, m.modes.len() as int) {
        Some(k) => Some(m.modes[k].id),
        None => None,
    }
}

/// The mode ID a stored mode resolves to: same resolution, rate within
/// tolerance, the closest rate winning (the first on a tie).
pub fn resolve_mode(monitor: &PhysicalMonitor, spec: &ModeSpec) -> (r: Option<String>)
    ensures
        match resolve_mode_spec(monitor@, *spec) {
            Some(id) => r matches Some(x) && x@ == id,
            None => r is None,
        },
{
    let ghost mv = monitor@.modes;
    let target: i128 = spec.refresh_milli_hz as i128 * 1000;
    let mut best: Option<(usize, i128)> = None;
    let mut k: usize = 0;
    while k < monitor.modes.len()
        invariant
            mv == monitor@.modes,
            target == spec.refresh_milli_hz * 1000,
            k <= mv.len(),
            match best_fit_upto(mv, *spec, k as int) {
                None => best is None,
                Some(b) => best matches Some((bi, bd)) && bi == b && bd == mode_dist(mv[b], *spec) && b < k,
            },
        decreases mv.len() - k,
    {
        let m = &monitor.modes[k];
        assert(mv[k as int] == m@);
        let diff: i128 = m.refresh_micro_hz as i128 - target;
        let d: i128 = if diff < 0 {
            -diff
        } else {
            diff
        };
        if m.width == spec.width && m.height == spec.height && d <= REFRESH_MATCH_EPS as i128 {
            match best {
                None => {
                    best = Some((k, d));
                },
                Some((_, bd)) => {
                    if d < bd {
                        best = Some((k, d));
                    }
                },
            }
        }
        k += 1;
    }
    match best {
        Some((i, _)) => {
            assert(mv[i as int] == monitor.modes@[i as int]@);
            Some(monitor.modes[i].id.clone())
        },
        None => None,
    }
}

/// Progress of resolving: connectors claimed so far, problems so far, and
/// the assignments of the display being resolved.
pub ghost struct ResolveState {
    pub used: Seq<Seq<char>>,
    pub problems: Seq<ProfileProblemView>,
    pub cur: Seq<AssignmentView>,
}

/// Resolving one profile monitor.
pub open spec fn monitor_step(ms: Seq<MonitorView>, st: ResolveState, pm: ProfileMonitorView) -> ResolveState {
    match match_spec(pm.identity, ms, st.used) {
        MatchView::Unique(m) => {
            let used = st.used.push(conn(m));
            match resolve_mode_spec(m, pm.mode) {
                Some(id) => ResolveState {
                    used,
                    problems: st.problems,
                    cur: st.cur.push(
                        AssignmentView {
                            connector: conn(m),
                            mode_id: id,
                            color_mode: pm.color_mode,
                            rgb_range: pm.rgb_range,
                            underscanning: None,
                        },
                    ),
                },
                None => ResolveState {
                    used,
                    problems: st.problems.push(
                        ProfileProblemView::ModeMissing { identity: pm.identity, mode: pm.mode },
                    ),
                    cur: st.cur,
                },
            }
        },
        MatchView::Ambiguous(cs) => ResolveState {
            problems: st.problems.push(
                ProfileProblemView::Ambiguous { identity: pm.identity, candidates: cs },
            ),
            ..st
        },
        MatchView::Missing(similar) => ResolveState {
            problems: st.problems.push(
                ProfileProblemView::Missing { identity: pm.identity, similar_model_present: similar },
            ),
            ..st
        },
    }
}

pub open spec fn monitors_fold(ms: Seq<MonitorView>, st: ResolveState, pms: Seq<ProfileMonitorView>) -> ResolveState
    decreases pms.len(),
{
    if pms.len() == 0 {
        st
    } else {
        monitor_step(ms, monitors_fold(ms, st, pms.drop_last()), pms.last())
    }
}

/// Progress over whole displays: claimed connectors, problems, and the
/// displays resolved so far.
pub ghost struct DisplaysState {
    pub used: Seq<Seq<char>>,
    pub problems: Seq<ProfileProblemView>,
    pub displays: Seq<DisplayView>,
}

/// Resolving one profile display; a display none of whose monitors
/// resolves is left out.
pub open spec fn display_step(ms: Seq<MonitorView>, st: DisplaysState, d: ProfileDisplayView) -> DisplaysState {
    let r = monitors_fold(ms, ResolveState { used: st.used, problems: st.problems, cur: Seq::empty() }, d.monitors);
    DisplaysState {
        used: r.used,
        problems: r.problems,
        displays: if r.cur.len() > 0 {
            st.displays.push(
                DisplayView {
                    x: d.x,
                    y: d.y,
                    scale: d.scale,
                    transform: d.transform,
                    primary: d.primary,
                    monitors: r.cur,
                },
            )
        } else {
            st.displays
        },
    }
}

pub open spec fn displays_fold(ms: Seq<MonitorView>, ds: Seq<ProfileDisplayView>) -> DisplaysState
    decreases ds.len(),
{
    if ds.len() == 0 {
        DisplaysState { used: Seq::empty(), problems: Seq::empty(), displays: Seq::empty() }
    } else {
        display_step(ms, displays_fold(ms, ds.drop_last()), ds.last())
    }
}

/// The profile recorded this monitor as disabled: by EDID when the record
/// has a vendor, else by connector.
pub open spec fn recorded_disabled(disabled: Seq<IdentityView>, m: MonitorView) -> bool {
    exists|k: int|
        0 <= k < disabled.len() && {
            let d = #[trigger] disabled[k];
            (d.vendor.len() > 0 && d.vendor == m.identity.vendor@ && d.product == m.identity.product@
                && d.serial == m.identity.serial@) || (d.vendor.len() == 0 && d.hint == conn(m))
        }
}

/// Connected monitors the resolved layout would silently turn off.
pub open spec fn unexpected_of(ms: Seq<MonitorView>, used: Seq<Seq<char>>, disabled: Seq<IdentityView>) -> Seq<ProfileProblemView> {
    ms.filter(|m: MonitorView| !used.contains(conn(m)) && !recorded_disabled(disabled, m)).map_values(
        |m: MonitorView|
            ProfileProblemView::UnexpectedMonitor {
                connector: conn(m),
                name: match m.display_name {
                    Some(n) => n,
                    None => conn(m),
                },
            },
    )
}

/// The layout a profile resolves to, and its problems.
pub open spec fn resolve_spec(p: ProfileView, ms: Seq<MonitorView>) -> (LayoutView, Seq<ProfileProblemView>) {
    let st = displays_fold(ms, p.displays);
    (
        LayoutView { layout_mode: p.layout_mode, displays: st.displays },
        st.problems + unexpected_of(ms, st.used, p.disabled),
    )
}

/// Result of resolving a profile against connected monitors.
#[derive(Debug, PartialEq)]
pub struct ProfileResolution {
    /// The layout, containing only the monitors that resolved. Complete
    /// only when `problems` is empty.
    pub layout: DisplayLayout,
    pub problems: Vec<ProfileProblem>,
}

impl ProfileResolution {
    /// True when every profile monitor resolved to a connected monitor and
    /// mode, and no connected monitor would be turned off unannounced.
    pub fn is_exact(&self) -> (r: bool)
        ensures
            r == (self.problems@.len() == 0),
    {
        self.problems.len() == 0
    }
}

fn push_problem(out: &mut Vec<ProfileProblem>, p: ProfileProblem)
    ensures
        profile_problems_view(final(out)@) == profile_problems_view(old(out)@).push(p@),
{
    out.push(p);
    assert(profile_problems_view(out@) =~= profile_problems_view(old(out)@).push(p@));
}

/// Whether the profile recorded `m` as disabled.
fn recorded_disabled_exec(disabled: &Vec<IdentitySpec>, m: &PhysicalMonitor) -> (r: bool)
    ensures
        r == recorded_disabled(identities_view(disabled@), m@),
{
    let ghost dv = identities_view(disabled@);
    let mut k: usize = 0;
    while k < disabled.len()
        invariant
            dv == identities_view(disabled@),
            k <= dv.len(),
            forall|t: int|
                0 <= t < k ==> !({
                    let d = #[trigger] dv[t];
                    (d.vendor.len() > 0 && d.vendor == m@.identity.vendor@ && d.product == m@.identity.product@
                        && d.serial == m@.identity.serial@) || (d.vendor.len() == 0 && d.hint == conn(m@))
                }),
        decreases dv.len() - k,
    {
        let d = &disabled[k];
        assert(dv[k as int] == d@);
        let hit = if !d.vendor.as_str().is_empty() {
            str_eq(d.vendor.as_str(), m.identity.vendor.as_str()) && str_eq(
                d.product.as_str(),
                m.identity.product.as_str(),
            ) && str_eq(d.serial.as_str(), m.identity.serial.as_str())
        } else {
            str_eq(d.connector_hint.as_str(), m.identity.connector.as_str())
        };
        if hit {
            return true;
        }
        k += 1;
    }
    false
}

impl DisplayProfile {
    /// Resolves the profile against the currently connected monitors. Each
    /// connected monitor is claimed at most once; a monitor the profile
    /// neither uses nor recorded as disabled is reported, never silently
    /// turned off.
    pub fn resolve(&self, monitors: &[PhysicalMonitor]) -> (r: ProfileResolution)
        ensures
            r.layout@ == resolve_spec(self@, monitors_view(monitors@)).0,
            profile_problems_view(r.problems@) == resolve_spec(self@, monitors_view(monitors@)).1,
    {
        let ghost ms = monitors_view(monitors@);
        let ghost pd = self@.displays;
        let mut problems: Vec<ProfileProblem> = Vec::new();
        let mut displays: Vec<LogicalDisplay> = Vec::new();
        let mut used: Vec<String> = Vec::new();
        let mut i: usize = 0;
        while i < self.logical_displays.len()
            invariant
                ms == monitors_view(monitors@),
                pd == self@.displays,
                i <= pd.len(),
                ({
                    let st = displays_fold(ms, pd.take(i as int));
                    &&& strings_view(used@) == st.used
                    &&& profile_problems_view(problems@) == st.problems
                    &&& displays_view(displays@) == st.displays
                }),
            decreases pd.len() - i,
        {
            let d = &self.logical_displays[i];
            assert(pd[i as int] == d@);
            proof {
                assert(pd.take(i as int + 1).drop_last() =~= pd.take(i as int));
                assert(pd.take(i as int + 1).last() == d@);
            }
            let ghost st0 = displays_fold(ms, pd.take(i as int));
            let ghost rs0 = ResolveState { used: st0.used, problems: st0.problems, cur: Seq::empty() };
            let mut assignments: Vec<MonitorAssignment> = Vec::new();
            let mut j: usize = 0;
            while j < d.monitors.len()
                invariant
                    ms == monitors_view(monitors@),
                    d@ == pd[i as int],
                    j <= d@.monitors.len(),
                    ({
                        let r = monitors_fold(ms, rs0, d@.monitors.take(j as int));
                        &&& strings_view(used@) == r.used
                        &&& profile_problems_view(problems@) == r.problems
                        &&& crate::layout::assignments_view(assignments@) == r.cur
                    }),
                decreases d@.monitors.len() - j,
            {
                let pm = &d.monitors[j];
                assert(d@.monitors[j as int] == pm@);
                proof {
                    assert(d@.monitors.take(j as int + 1).drop_last() =~= d@.monitors.take(j as int));
                    assert(d@.monitors.take(j as int + 1).last() == pm@);
                }
                match resolve_monitor(&pm.identity, monitors, used.as_slice()) {
                    MonitorMatchOutcome::Unique(m) => {
                        let ghost before_used = used@;
                        used.push(m.connector().clone());
                        assert(strings_view(used@) =~= strings_view(before_used).push(conn(m@)));
                        match resolve_mode(m, &pm.mode) {
                            Some(mode_id) => {
                                let a = MonitorAssignment {
                                    connector: m.connector().clone(),
                                    mode_id,
                                    color_mode: pm.color_mode,
                                    rgb_range: pm.rgb_range,
                                    underscanning: None,
                                };
                                let ghost before = assignments@;
                                assignments.push(a);
                                assert(crate::layout::assignments_view(assignments@) =~= crate::layout::assignments_view(
                                    before,
                                ).push(a@));
                            },
                            None => {
                                push_problem(
                                    &mut problems,
                                    ProfileProblem::ModeMissing { identity: pm.identity.clone(), mode: pm.mode },
                                );
                            },
                        }
                    },
                    MonitorMatchOutcome::Ambiguous(cs) => {
                        push_problem(
                            &mut problems,
                            ProfileProblem::Ambiguous { identity: pm.identity.clone(), candidates: cs },
                        );
                    },
                    MonitorMatchOutcome::Missing { similar_model } => {
                        push_problem(
                            &mut problems,
                            ProfileProblem::Missing {
                                identity: pm.identity.clone(),
                                similar_model_present: similar_model,
                            },
                        );
                    },
                }
                j += 1;
            }
            proof {
                assert(d@.monitors.take(d@.monitors.len() as int) =~= d@.monitors);
            }
            if assignments.len() > 0 {
                let nd = LogicalDisplay {
                    x: d.x,
                    y: d.y,
                    scale: d.scale,
                    transform: d.transform,
                    primary: d.primary,
                    monitors: assignments,
                };
                let ghost before = displays@;
                displays.push(nd);
                assert(displays_view(displays@) =~= displays_view(before).push(nd@));
            }
            i += 1;
        }
        assert(pd.take(pd.len() as int) =~= pd);
        let ghost st = displays_fold(ms, pd);
        let ghost pred = |m: MonitorView| !st.used.contains(conn(m)) && !recorded_disabled(self@.disabled, m);
        let ghost head = profile_problems_view(problems@);
        let ghost f = |m: MonitorView|
            ProfileProblemView::UnexpectedMonitor {
                connector: conn(m),
                name: match m.display_name {
                    Some(n) => n,
                    None => conn(m),
                },
            };
        let mut k: usize = 0;
        while k < monitors.len()
            invariant
                ms == monitors_view(monitors@),
                strings_view(used@) == st.used,
                pred == (|m: MonitorView| !st.used.contains(conn(m)) && !recorded_disabled(self@.disabled, m)),
                f == (|m: MonitorView|
                    ProfileProblemView::UnexpectedMonitor {
                        connector: conn(m),
                        name: match m.display_name {
                            Some(n) => n,
                            None => conn(m),
                        },
                    }),
                k <= ms.len(),
                profile_problems_view(problems@) == head + ms.take(k as int).filter(pred).map_values(f),
            decreases ms.len() - k,
        {
            let m = &monitors[k];
            assert(ms[k as int] == m@);
            proof {
                reveal(Seq::filter);
                let t1 = ms.take(k as int + 1);
                assert(t1.drop_last() =~= ms.take(k as int));
                assert(t1.last() == m@);
            }
            let ghost prev = ms.take(k as int).filter(pred);
            let matched = string_in(used.as_slice(), m.connector());
            let recorded = recorded_disabled_exec(&self.disabled, m);
            if !matched && !recorded {
                let name = match &m.display_name {
                    Some(n) => n.clone(),
                    None => m.connector().clone(),
                };
                push_problem(
                    &mut problems,
                    ProfileProblem::UnexpectedMonitor { connector: m.connector().clone(), name },
                );
                assert(prev.push(m@).map_values(f) =~= prev.map_values(f).push(f(m@)));
            }
            k += 1;
            assert(profile_problems_view(problems@) =~= head + ms.take(k as int).filter(pred).map_values(f));
        }
        assert(ms.take(ms.len() as int) =~= ms);
        let layout = DisplayLayout { layout_mode: self.layout_mode, logical_displays: displays };
        ProfileResolution { layout, problems }
    }
}

// ---------------------------------------------------------------------
// Laws of resolution.
// ---------------------------------------------------------------------

pub open spec fn cur_conns(cur: Seq<AssignmentView>) -> Seq<Seq<char>> {
    cur.map_values(|a: AssignmentView| a.connector)
}

/// Some connected monitor is on connector `c`.
pub open spec fn is_connected(ms: Seq<MonitorView>, c: Seq<char>) -> bool {
    exists|j: int| 0 <= j < ms.len() && conn(#[trigger] ms[j]) == c
}

/// Every claimed connector belongs to a connected monitor.
pub open spec fn all_connected(ms: Seq<MonitorView>, cs: Seq<Seq<char>>) -> bool {
    forall|k: int| 0 <= k < cs.len() ==> is_connected(ms, #[trigger] cs[k])
}

/// What resolving keeps true: claimed connectors are connected and
/// distinct, and the assigned ones (`assigned`) are distinct and claimed.
pub open spec fn claim_inv(ms: Seq<MonitorView>, used: Seq<Seq<char>>, assigned: Seq<Seq<char>>) -> bool {
    &&& used.no_duplicates()
    &&& all_connected(ms, used)
    &&& assigned.no_duplicates()
    &&& forall|k: int| 0 <= k < assigned.len() ==> used.contains(#[trigger] assigned[k])
}

/// A unique match is a connected monitor not claimed yet.
proof fn lemma_unique_is_available(i: IdentityView, ms: Seq<MonitorView>, used: Seq<Seq<char>>)
    ensures
        match_spec(i, ms, used) matches MatchView::Unique(m) ==> ms.contains(m) && !used.contains(conn(m)),
{
    broadcast use vstd::seq_lib::group_filter_ensures;

    let av = available(ms, used);
    let pred = |m: MonitorView| !used.contains(conn(m));
    if let MatchView::Unique(m) = match_spec(i, ms, used) {
        if i.vendor.len() == 0 && i.product.len() == 0 && i.serial.len() == 0 {
            let k = first_where(av, |m: MonitorView| conn(m) == i.hint)->0;
            assert(crate::seqs::is_first(av, |m: MonitorView| conn(m) == i.hint, k));
            assert(av.contains(av[k]));
        } else {
            let full = av.filter(|m: MonitorView| same_edid(m, i));
            let k: int = if full.len() == 1 {
                0
            } else {
                first_where(full, |m: MonitorView| conn(m) == i.hint)->0
            };
            if full.len() != 1 {
                assert(crate::seqs::is_first(full, |m: MonitorView| conn(m) == i.hint, k));
            }
            assert(full[k] == m);
            assert(full.contains(m));
            av.lemma_filter_contains_rev(|m: MonitorView| same_edid(m, i), m);
            assert(av.contains(m));
        }
        assert(av.contains(m));
        ms.lemma_filter_contains_rev(pred, m);
        let w = choose|w: int| 0 <= w < av.len() && av[w] == m;
        assert(pred(av[w]));
    }
}

proof fn lemma_step_keeps(ms: Seq<MonitorView>, st: ResolveState, pm: ProfileMonitorView, e: Seq<Seq<char>>)
    requires
        claim_inv(ms, st.used, e + cur_conns(st.cur)),
    ensures
        claim_inv(ms, monitor_step(ms, st, pm).used, e + cur_conns(monitor_step(ms, st, pm).cur)),
{
    lemma_unique_is_available(pm.identity, ms, st.used);
    let st2 = monitor_step(ms, st, pm);
    if let MatchView::Unique(m) = match_spec(pm.identity, ms, st.used) {
        let c = conn(m);
        let j = choose|j: int| 0 <= j < ms.len() && ms[j] == m;
        let used = st.used.push(c);
        assert forall|k: int| 0 <= k < used.len() implies is_connected(ms, #[trigger] used[k]) by {
            if k == st.used.len() {
                assert(conn(ms[j]) == used[k]);
            } else {
                assert(used[k] == st.used[k]);
            }
        }
        assert(used.no_duplicates()) by {
            assert forall|a: int, b: int| 0 <= a < b < used.len() implies used[a] != used[b] by {
                if b == st.used.len() {
                    assert(used[a] == st.used[a]);
                }
            }
        }
        let old_a = e + cur_conns(st.cur);
        let new_a = e + cur_conns(st2.cur);
        assert forall|k: int| 0 <= k < old_a.len() implies used.contains(#[trigger] old_a[k]) by {
            let w = choose|w: int| 0 <= w < st.used.len() && st.used[w] == old_a[k];
            assert(used[w] == st.used[w]);
        }
        if st2.cur.len() > st.cur.len() {
            assert(new_a =~= old_a.push(c));
            assert forall|a: int, b: int| 0 <= a < b < new_a.len() implies new_a[a] != new_a[b] by {
                if b == old_a.len() {
                    assert(new_a[a] == old_a[a]);
                    if old_a[a] == c {
                        assert(st.used.contains(old_a[a]));
                    }
                } else {
                    assert(new_a[a] == old_a[a] && new_a[b] == old_a[b]);
                }
            }
            assert forall|k: int| 0 <= k < new_a.len() implies used.contains(#[trigger] new_a[k]) by {
                if k == old_a.len() {
                    assert(used[st.used.len() as int] == c);
                } else {
                    assert(new_a[k] == old_a[k]);
                }
            }
        } else {
            assert(new_a =~= old_a);
        }
    } else {
        assert(st2.used == st.used);
        assert(st2.cur == st.cur);
    }
}

proof fn lemma_fold_keeps(ms: Seq<MonitorView>, st: ResolveState, pms: Seq<ProfileMonitorView>, e: Seq<Seq<char>>)
    requires
        claim_inv(ms, st.used, e + cur_conns(st.cur)),
    ensures
        claim_inv(ms, monitors_fold(ms, st, pms).used, e + cur_conns(monitors_fold(ms, st, pms).cur)),
    decreases pms.len(),
{
    if pms.len() > 0 {
        lemma_fold_keeps(ms, st, pms.drop_last(), e);
        lemma_step_keeps(ms, monitors_fold(ms, st, pms.drop_last()), pms.last(), e);
    }
}

proof fn lemma_displays_keep(ms: Seq<MonitorView>, ds: Seq<ProfileDisplayView>)
    ensures
        claim_inv(ms, displays_fold(ms, ds).used, crate::layout::enabled_of(displays_fold(ms, ds).displays)),
    decreases ds.len(),
{
    if ds.len() == 0 {
        assert(crate::layout::enabled_of(Seq::<DisplayView>::empty()) =~= Seq::<Seq<char>>::empty());
    } else {
        lemma_displays_keep(ms, ds.drop_last());
        let st = displays_fold(ms, ds.drop_last());
        let e = crate::layout::enabled_of(st.displays);
        let rs0 = ResolveState { used: st.used, problems: st.problems, cur: Seq::empty() };
        assert(e + cur_conns(rs0.cur) =~= e);
        lemma_fold_keeps(ms, rs0, ds.last().monitors, e);
        let r = monitors_fold(ms, rs0, ds.last().monitors);
        let st2 = displays_fold(ms, ds);
        if r.cur.len() > 0 {
            let nd = st2.displays.last();
            assert(st2.displays.drop_last() =~= st.displays);
            assert(nd.monitors == r.cur);
            assert(crate::layout::enabled_of(st2.displays) =~= e + cur_conns(r.cur));
        }
    }
}

/// A resolved profile assigns only connected monitors, each at most once.
pub proof fn lemma_resolve_claims_distinct(p: ProfileView, ms: Seq<MonitorView>)
    ensures
        ({
            let cs = crate::layout::enabled_of(resolve_spec(p, ms).0.displays);
            &&& cs.no_duplicates()
            &&& all_connected(ms, cs)
        }),
{
    lemma_displays_keep(ms, p.displays);
    let st = displays_fold(ms, p.displays);
    let cs = crate::layout::enabled_of(st.displays);
    assert forall|k: int| 0 <= k < cs.len() implies is_connected(ms, #[trigger] cs[k]) by {
        let w = choose|w: int| 0 <= w < st.used.len() && st.used[w] == cs[k];
        assert(is_connected(ms, st.used[w]));
    }
}

proof fn lemma_displays_nonempty(ms: Seq<MonitorView>, ds: Seq<ProfileDisplayView>)
    ensures
        forall|i: int|
            0 <= i < displays_fold(ms, ds).displays.len() ==> (#[trigger] displays_fold(ms, ds).displays[i]).monitors.len()
                > 0,
    decreases ds.len(),
{
    if ds.len() > 0 {
        lemma_displays_nonempty(ms, ds.drop_last());
        let prev = displays_fold(ms, ds.drop_last());
        let cur = displays_fold(ms, ds);
        assert forall|i: int| 0 <= i < cur.displays.len() implies (#[trigger] cur.displays[i]).monitors.len() > 0 by {
            if i < prev.displays.len() {
                assert(cur.displays[i] == prev.displays[i]);
            }
        }
    }
}

/// The problem reports connector `c` as an unexpected monitor.
pub open spec fn reports_unexpected(p: ProfileProblemView, c: Seq<char>) -> bool {
    p matches ProfileProblemView::UnexpectedMonitor { connector, .. } && connector == c
}

/// A resolved profile keeps the profile's layout mode and has no empty
/// display; every connected monitor that no profile monitor claimed and
/// that the profile does not record as disabled is reported as unexpected
/// (never silently turned off).
pub proof fn lemma_resolve_law(p: ProfileView, ms: Seq<MonitorView>)
    ensures
        resolve_spec(p, ms).0.layout_mode == p.layout_mode,
        forall|i: int|
            0 <= i < resolve_spec(p, ms).0.displays.len() ==> (#[trigger] resolve_spec(p, ms).0.displays[i]).monitors.len()
                > 0,
        forall|t: int|
            0 <= t < ms.len() && !displays_fold(ms, p.displays).used.contains(conn(#[trigger] ms[t]))
                && !recorded_disabled(p.disabled, ms[t]) ==> exists|k: int|
                0 <= k < resolve_spec(p, ms).1.len() && reports_unexpected(#[trigger] resolve_spec(p, ms).1[k], conn(ms[t])),
{
    lemma_displays_nonempty(ms, p.displays);
    let st = displays_fold(ms, p.displays);
    let pred = |m: MonitorView| !st.used.contains(conn(m)) && !recorded_disabled(p.disabled, m);
    let f = |m: MonitorView|
        ProfileProblemView::UnexpectedMonitor {
            connector: conn(m),
            name: match m.display_name {
                Some(n) => n,
                None => conn(m),
            },
        };
    let filtered = ms.filter(pred);
    assert(unexpected_of(ms, st.used, p.disabled) == filtered.map_values(f));
    assert forall|t: int|
        0 <= t < ms.len() && !st.used.contains(conn(#[trigger] ms[t])) && !recorded_disabled(p.disabled, ms[t])
            implies exists|k: int|
            0 <= k < resolve_spec(p, ms).1.len() && reports_unexpected(#[trigger] resolve_spec(p, ms).1[k], conn(ms[t])) by {
        ms.lemma_filter_contains(pred, t);
        let j = choose|j: int| 0 <= j < filtered.len() && filtered[j] == ms[t];
        let probs = resolve_spec(p, ms).1;
        let k = st.problems.len() + j;
        assert(probs[k] == filtered.map_values(f)[j]);
    }
}

/// The assignment names a connected monitor and one of that monitor's
/// mode IDs.
pub open spec fn names_real_mode(ms: Seq<MonitorView>, a: AssignmentView) -> bool {
    exists|j: int, k: int|
        0 <= j < ms.len() && 0 <= k < ms[j].modes.len() && conn(ms[j]) == a.connector && #[trigger] ms[j].modes[k].id
            == a.mode_id
}

proof fn lemma_best_fit_range(modes: Seq<ModeView>, s: ModeSpec, n: int)
    requires
        n <= modes.len(),
    ensures
        best_fit_upto(modes, s, n) matches Some(k) ==> 0 <= k < n,
    decreases n,
{
    if n > 0 {
        lemma_best_fit_range(modes, s, n - 1);
    }
}

proof fn lemma_fold_real_modes(ms: Seq<MonitorView>, st: ResolveState, pms: Seq<ProfileMonitorView>)
    requires
        forall|k: int| 0 <= k < st.cur.len() ==> names_real_mode(ms, #[trigger] st.cur[k]),
    ensures
        forall|k: int|
            0 <= k < monitors_fold(ms, st, pms).cur.len() ==> names_real_mode(ms, #[trigger] monitors_fold(ms, st, pms).cur[k]),
    decreases pms.len(),
{
    if pms.len() > 0 {
        lemma_fold_real_modes(ms, st, pms.drop_last());
        let prev = monitors_fold(ms, st, pms.drop_last());
        let pm = pms.last();
        let next = monitors_fold(ms, st, pms);
        assert(next == monitor_step(ms, prev, pm));
        lemma_unique_is_available(pm.identity, ms, prev.used);
        if let MatchView::Unique(m) = match_spec(pm.identity, ms, prev.used) {
            if let Some(id) = resolve_mode_spec(m, pm.mode) {
                let j = choose|j: int| 0 <= j < ms.len() && ms[j] == m;
                lemma_best_fit_range(m.modes, pm.mode, m.modes.len() as int);
                let k = best_fit_upto(m.modes, pm.mode, m.modes.len() as int)->0;
                assert(ms[j].modes[k].id == id);
                assert forall|q: int| 0 <= q < next.cur.len() implies names_real_mode(ms, #[trigger] next.cur[q]) by {
                    if q < prev.cur.len() {
                        assert(next.cur[q] == prev.cur[q]);
                    } else {
                        assert(names_real_mode(ms, next.cur[q]));
                    }
                }
            }
        }
    }
}

proof fn lemma_displays_real_modes(ms: Seq<MonitorView>, ds: Seq<ProfileDisplayView>)
    ensures
        forall|i: int, k: int|
            0 <= i < displays_fold(ms, ds).displays.len() && 0 <= k < displays_fold(ms, ds).displays[i].monitors.len()
                ==> names_real_mode(ms, #[trigger] displays_fold(ms, ds).displays[i].monitors[k]),
    decreases ds.len(),
{
    if ds.len() > 0 {
        lemma_displays_real_modes(ms, ds.drop_last());
        let st = displays_fold(ms, ds.drop_last());
        let rs0 = ResolveState { used: st.used, problems: st.problems, cur: Seq::empty() };
        lemma_fold_real_modes(ms, rs0, ds.last().monitors);
        let cur = displays_fold(ms, ds);
        assert forall|i: int, k: int|
            0 <= i < cur.displays.len() && 0 <= k < cur.displays[i].monitors.len() implies names_real_mode(
                ms,
                #[trigger] cur.displays[i].monitors[k],
            ) by {
            if i < st.displays.len() {
                assert(cur.displays[i] == st.displays[i]);
            }
        }
    }
}

/// Every assignment of a resolved profile names a connected monitor and
/// one of that monitor's mode IDs.
pub proof fn lemma_resolve_modes_real(p: ProfileView, ms: Seq<MonitorView>)
    ensures
        forall|i: int, k: int|
            0 <= i < resolve_spec(p, ms).0.displays.len() && 0 <= k < resolve_spec(p, ms).0.displays[i].monitors.len()
                ==> names_real_mode(ms, #[trigger] resolve_spec(p, ms).0.displays[i].monitors[k]),
{
    lemma_displays_real_modes(ms, p.displays);
}

/// `r` sits where `d` says: same position, scale, transform and primary
/// flag.
pub open spec fn placed_as(r: DisplayView, d: ProfileDisplayView) -> bool {
    r.x == d.x && r.y == d.y && r.scale == d.scale && r.transform == d.transform && r.primary == d.primary
}

/// A profile display records the position, scale, transform and primary
/// flag of the display it was saved from.
pub proof fn lemma_saved_display_placement(ms: Seq<MonitorView>, d: DisplayView)
    ensures
        ({
            let p = profile_display_of(ms, d);
            p.x == d.x && p.y == d.y && p.scale == d.scale && p.transform == d.transform && p.primary == d.primary
        }),
{
}

/// Assignment `a` takes its colour settings from profile monitor `pm` and
/// leaves underscanning unset.
pub open spec fn settings_from(a: AssignmentView, pm: ProfileMonitorView) -> bool {
    a.color_mode == pm.color_mode && a.rgb_range == pm.rgb_range && a.underscanning is None
}

/// Every assignment of `r` takes its settings from a monitor of `d`.
pub open spec fn assignments_from(r: DisplayView, d: ProfileDisplayView) -> bool {
    forall|q: int|
        0 <= q < r.monitors.len() ==> exists|j: int|
            0 <= j < d.monitors.len() && settings_from(#[trigger] r.monitors[q], d.monitors[j])
}

proof fn lemma_monitors_fold_from(ms: Seq<MonitorView>, st: ResolveState, pms: Seq<ProfileMonitorView>)
    ensures
        monitors_fold(ms, st, pms).cur.len() >= st.cur.len(),
        forall|q: int| 0 <= q < st.cur.len() ==> #[trigger] monitors_fold(ms, st, pms).cur[q] == st.cur[q],
        forall|q: int|
            st.cur.len() <= q < monitors_fold(ms, st, pms).cur.len() ==> exists|j: int|
                0 <= j < pms.len() && settings_from(#[trigger] monitors_fold(ms, st, pms).cur[q], pms[j]),
    decreases pms.len(),
{
    if pms.len() > 0 {
        lemma_monitors_fold_from(ms, st, pms.drop_last());
        let prev = monitors_fold(ms, st, pms.drop_last());
        let next = monitors_fold(ms, st, pms);
        assert(next == monitor_step(ms, prev, pms.last()));
        assert(next.cur.len() == prev.cur.len() || next.cur.len() == prev.cur.len() + 1);
        assert forall|q: int| 0 <= q < prev.cur.len() implies #[trigger] next.cur[q] == prev.cur[q] by {}
        assert forall|q: int| st.cur.len() <= q < next.cur.len() implies exists|j: int|
            0 <= j < pms.len() && settings_from(#[trigger] next.cur[q], pms[j]) by {
            if q < prev.cur.len() {
                assert(next.cur[q] == prev.cur[q]);
                let j = choose|j: int| 0 <= j < pms.drop_last().len() && settings_from(prev.cur[q], pms.drop_last()[j]);
                assert(pms.drop_last()[j] == pms[j]);
            } else {
                assert(settings_from(next.cur[q], pms[pms.len() - 1]));
            }
        }
    }
}

proof fn lemma_fold_placement(ms: Seq<MonitorView>, ds: Seq<ProfileDisplayView>) -> (idx: Seq<int>)
    ensures
        idx.len() == displays_fold(ms, ds).displays.len(),
        forall|k: int| 0 <= k < idx.len() ==> 0 <= #[trigger] idx[k] < ds.len(),
        forall|k: int|
            0 <= k < idx.len() ==> placed_as(#[trigger] displays_fold(ms, ds).displays[k], ds[idx[k]]),
        forall|k: int|
            0 <= k < idx.len() ==> assignments_from(#[trigger] displays_fold(ms, ds).displays[k], ds[idx[k]]),
        forall|a: int, b: int| 0 <= a < b < idx.len() ==> #[trigger] idx[a] < #[trigger] idx[b],
    decreases ds.len(),
{
    if ds.len() == 0 {
        Seq::empty()
    } else {
        let prev = lemma_fold_placement(ms, ds.drop_last());
        let st = displays_fold(ms, ds.drop_last());
        let cur = displays_fold(ms, ds);
        assert forall|k: int| 0 <= k < prev.len() implies #[trigger] ds.drop_last()[prev[k]] == ds[prev[k]] by {}
        let rs0 = ResolveState { used: st.used, problems: st.problems, cur: Seq::empty() };
        lemma_monitors_fold_from(ms, rs0, ds.last().monitors);
        if cur.displays.len() > st.displays.len() {
            let idx = prev.push(ds.len() - 1);
            assert forall|k: int| 0 <= k < idx.len() implies assignments_from(
                #[trigger] cur.displays[k],
                ds[idx[k]],
            ) by {
                if k < prev.len() {
                    assert(cur.displays[k] == st.displays[k]);
                    assert(idx[k] == prev[k]);
                    assert(ds.drop_last()[prev[k]] == ds[prev[k]]);
                } else {
                    assert(idx[k] == ds.len() - 1);
                    assert(cur.displays[k].monitors == monitors_fold(ms, rs0, ds.last().monitors).cur);
                }
            }
            assert forall|k: int| 0 <= k < idx.len() implies placed_as(
                #[trigger] cur.displays[k],
                ds[idx[k]],
            ) by {
                if k < prev.len() {
                    assert(cur.displays[k] == st.displays[k]);
                    assert(idx[k] == prev[k]);
                    assert(ds.drop_last()[prev[k]] == ds[prev[k]]);
                }
            }
            assert forall|a: int, b: int| 0 <= a < b < idx.len() implies #[trigger] idx[a] < #[trigger] idx[b] by {
                if b < prev.len() {
                    assert(idx[a] == prev[a] && idx[b] == prev[b]);
                } else {
                    assert(idx[a] == prev[a]);
                }
            }
            idx
        } else {
            assert forall|k: int| 0 <= k < prev.len() implies placed_as(#[trigger] cur.displays[k], ds[prev[k]]) by {
                assert(ds.drop_last()[prev[k]] == ds[prev[k]]);
            }
            assert forall|k: int| 0 <= k < prev.len() implies assignments_from(#[trigger] cur.displays[k], ds[prev[k]]) by {
                assert(ds.drop_last()[prev[k]] == ds[prev[k]]);
            }
            prev
        }
    }
}

/// `idx` picks, in increasing order, for each of `rs` the profile display
/// it sits as and takes its assignments' settings from.
pub open spec fn resolved_from(rs: Seq<DisplayView>, pds: Seq<ProfileDisplayView>, idx: Seq<int>) -> bool {
    &&& idx.len() == rs.len()
    &&& forall|k: int| 0 <= k < idx.len() ==> 0 <= #[trigger] idx[k] < pds.len()
    &&& forall|k: int| 0 <= k < idx.len() ==> placed_as(#[trigger] rs[k], pds[idx[k]])
    &&& forall|k: int| 0 <= k < idx.len() ==> assignments_from(#[trigger] rs[k], pds[idx[k]])
    &&& forall|a: int, b: int| 0 <= a < b < idx.len() ==> #[trigger] idx[a] < #[trigger] idx[b]
}

/// Every display of a resolved profile sits where the profile display it
/// came from says (same position, scale, transform and primary flag), each
/// of its assignments takes its colour settings from a monitor of that
/// profile display, and the resolved displays keep the profile's order.
pub proof fn lemma_resolve_keeps_placement(p: ProfileView, ms: Seq<MonitorView>)
    ensures
        exists|idx: Seq<int>| #[trigger] resolved_from(resolve_spec(p, ms).0.displays, p.displays, idx),
{
    let idx = lemma_fold_placement(ms, p.displays);
    assert(resolve_spec(p, ms).0.displays == displays_fold(ms, p.displays).displays);
    assert(resolved_from(resolve_spec(p, ms).0.displays, p.displays, idx));
}

/// Monitor `i` is the first connected monitor on `a`'s connector, and its
/// mode `k` has `a`'s mode ID.
pub open spec fn names_monitor_mode(ms: Seq<MonitorView>, a: AssignmentView, i: int, k: int) -> bool {
    &&& 0 <= i < ms.len()
    &&& conn(ms[i]) == a.connector
    &&& forall|j: int| 0 <= j < i ==> conn(#[trigger] ms[j]) != a.connector
    &&& 0 <= k < ms[i].modes.len()
    &&& ms[i].modes[k].id == a.mode_id
}

/// `pm` records monitor `m`'s identity, mode `md`'s size and refresh (in
/// whole millihertz, rounded), and `a`'s colour settings.
pub open spec fn records_monitor(pm: ProfileMonitorView, m: MonitorView, md: ModeView, a: AssignmentView) -> bool {
    &&& pm.identity == identity_of(m.identity)
    &&& pm.mode.width == md.width
    &&& pm.mode.height == md.height
    &&& pm.mode.refresh_milli_hz == round_div(md.refresh as int, 1000)
    &&& pm.color_mode == a.color_mode
    &&& pm.rgb_range == a.rgb_range
}

/// Saving an assignment gives an entry exactly when the first monitor on
/// its connector has a mode with its mode ID; the entry records that
/// monitor's identity, the mode's size and refresh, and the assignment's
/// colour settings.
pub proof fn lemma_saved_monitor_entry(ms: Seq<MonitorView>, a: AssignmentView)
    ensures
        profile_monitor_of(ms, a) is Some <==> exists|i: int, k: int| #[trigger] names_monitor_mode(ms, a, i, k),
        profile_monitor_of(ms, a) matches Some(pm) ==> exists|i: int, k: int|
            #[trigger] names_monitor_mode(ms, a, i, k) && records_monitor(pm, ms[i], ms[i].modes[k], a),
{
    let cp = crate::layout::connector_is(a.connector);
    let mp = |md: ModeView| md.id == a.mode_id;
    if let Some(i) = find_monitor(ms, a.connector) {
        let i0 = choose|i0: int| crate::seqs::is_first(ms, cp, i0);
        crate::seqs::lemma_first_where_at(ms, cp, i0);
        assert(i == i0);
        assert forall|j: int| 0 <= j < i implies conn(#[trigger] ms[j]) != a.connector by {
            assert(!cp(ms[j]));
        }
        if let Some(k) = find_mode(ms[i].modes, a.mode_id) {
            let k0 = choose|k0: int| crate::seqs::is_first(ms[i].modes, mp, k0);
            crate::seqs::lemma_first_where_at(ms[i].modes, mp, k0);
            assert(names_monitor_mode(ms, a, i, k));
        } else {
            if exists|i2: int, k2: int| #[trigger] names_monitor_mode(ms, a, i2, k2) {
                let (i2, k2) = choose|i2: int, k2: int| #[trigger] names_monitor_mode(ms, a, i2, k2);
                if i2 < i {
                    assert(cp(ms[i]));
                    assert(conn(ms[i2]) != a.connector || false);
                }
                if i < i2 {
                    assert(conn(ms[i]) != a.connector);
                }
                crate::seqs::lemma_first_where_some(ms[i].modes, mp, k2);
            }
        }
    } else {
        if exists|i2: int, k2: int| #[trigger] names_monitor_mode(ms, a, i2, k2) {
            let (i2, k2) = choose|i2: int, k2: int| #[trigger] names_monitor_mode(ms, a, i2, k2);
            crate::seqs::lemma_first_where_some(ms, cp, i2);
        }
    }
}

proof fn lemma_filter_map_keeps<A, B>(s: Seq<A>, f: spec_fn(A) -> Option<B>, j: int)
    requires
        0 <= j < s.len(),
        f(s[j]) is Some,
    ensures
        s.filter_map(f).contains(f(s[j])->0),
    decreases s.len(),
{
    let rest = s.drop_last();
    if j == s.len() - 1 {
        assert(s.filter_map(f) == rest.filter_map(f) + seq![f(s[j])->0]);
        assert(s.filter_map(f)[rest.filter_map(f).len() as int] == f(s[j])->0);
    } else {
        assert(rest[j] == s[j]);
        lemma_filter_map_keeps(rest, f, j);
        let t = choose|t: int| 0 <= t < rest.filter_map(f).len() && rest.filter_map(f)[t] == f(s[j])->0;
        match f(s.last()) {
            Some(y) => {
                assert(s.filter_map(f) == rest.filter_map(f) + seq![y]);
                assert(s.filter_map(f)[t] == f(s[j])->0);
            },
            None => {},
        }
    }
}

/// A saved display lists an entry for each of its assignments whose
/// monitor and mode exist, and nothing else.
pub proof fn lemma_saved_display_monitors(ms: Seq<MonitorView>, d: DisplayView)
    ensures
        forall|j: int|
            0 <= j < d.monitors.len() && #[trigger] profile_monitor_of(ms, d.monitors[j]) is Some
                ==> profile_display_of(ms, d).monitors.contains(profile_monitor_of(ms, d.monitors[j])->0),
        forall|t: int|
            0 <= t < profile_display_of(ms, d).monitors.len() ==> exists|j: int|
                0 <= j < d.monitors.len() && profile_monitor_of(ms, d.monitors[j]) == Some(
                    #[trigger] profile_display_of(ms, d).monitors[t],
                ),
{
    let f = |a: AssignmentView| profile_monitor_of(ms, a);
    let out = profile_display_of(ms, d).monitors;
    assert(out == d.monitors.filter_map(f));
    assert forall|j: int| 0 <= j < d.monitors.len() && #[trigger] profile_monitor_of(ms, d.monitors[j]) is Some implies out.contains(
        profile_monitor_of(ms, d.monitors[j])->0,
    ) by {
        lemma_filter_map_keeps(d.monitors, f, j);
    }
    assert forall|t: int| 0 <= t < out.len() implies exists|j: int|
        0 <= j < d.monitors.len() && profile_monitor_of(ms, d.monitors[j]) == Some(#[trigger] out[t]) by {
        assert(out.contains(out[t]));
        d.monitors.lemma_filter_map_contains(f, out[t]);
        let a = choose|a: AssignmentView| #[trigger] d.monitors.contains(a) && f(a) == Some(out[t]);
        let j = choose|j: int| 0 <= j < d.monitors.len() && d.monitors[j] == a;
    }
}

/// The identity records an EDID (vendor, product or serial).
pub open spec fn has_edid(i: IdentityView) -> bool {
    i.vendor.len() > 0 || i.product.len() > 0 || i.serial.len() > 0
}

/// Monitor `m` is connected, not yet claimed, and answers identity `i`:
/// by its EDID where `i` records one, else by being on `i`'s connector.
pub open spec fn answers(ms: Seq<MonitorView>, used: Seq<Seq<char>>, i: IdentityView, m: MonitorView) -> bool {
    &&& ms.contains(m)
    &&& !used.contains(conn(m))
    &&& if has_edid(i) {
        m.identity.vendor@ == i.vendor && m.identity.product@ == i.product && m.identity.serial@ == i.serial
    } else {
        conn(m) == i.hint
    }
}

proof fn lemma_available_has(ms: Seq<MonitorView>, used: Seq<Seq<char>>, m: MonitorView)
    ensures
        available(ms, used).contains(m) <==> ms.contains(m) && !used.contains(conn(m)),
{
    let pred = |x: MonitorView| !used.contains(conn(x));
    if available(ms, used).contains(m) {
        ms.lemma_filter_contains_rev(pred, m);
        let k = choose|k: int| 0 <= k < available(ms, used).len() && available(ms, used)[k] == m;
        ms.lemma_filter_pred(pred, k);
    }
    if ms.contains(m) && !used.contains(conn(m)) {
        let k = choose|k: int| 0 <= k < ms.len() && ms[k] == m;
        ms.lemma_filter_contains(pred, k);
    }
}

/// Matching an identity: a unique match is a connected, unclaimed monitor
/// that answers the identity, and where several answer it, the one on the
/// identity's connector; no match means no monitor answers; an ambiguous
/// match lists the connectors of the two or more answering monitors, none
/// of them on the identity's connector.
pub proof fn lemma_match_law(i: IdentityView, ms: Seq<MonitorView>, used: Seq<Seq<char>>)
    ensures
        match_spec(i, ms, used) matches MatchView::Unique(m) ==> answers(ms, used, i, m) && (conn(m) == i.hint
            || forall|t: int| 0 <= t < ms.len() && #[trigger] answers(ms, used, i, ms[t]) ==> ms[t] == m),
        match_spec(i, ms, used) is Missing ==> forall|t: int| 0 <= t < ms.len() ==> !#[trigger] answers(ms, used, i, ms[t]),
        match_spec(i, ms, used) matches MatchView::Ambiguous(cs) ==> {
            &&& has_edid(i)
            &&& cs.len() >= 2
            &&& forall|k: int|
                0 <= k < cs.len() ==> exists|t: int|
                    0 <= t < ms.len() && answers(ms, used, i, ms[t]) && #[trigger] cs[k] == conn(ms[t])
            &&& forall|t: int| 0 <= t < ms.len() && #[trigger] answers(ms, used, i, ms[t]) ==> conn(ms[t]) != i.hint
        },
{
    let av = available(ms, used);
    assert forall|m: MonitorView| #[trigger] av.contains(m) <==> ms.contains(m) && !used.contains(conn(m)) by {
        lemma_available_has(ms, used, m);
    }
    assert forall|t: int| 0 <= t < ms.len() implies #[trigger] av.contains(ms[t]) == !used.contains(conn(ms[t])) by {
        lemma_available_has(ms, used, ms[t]);
    }
    if !has_edid(i) {
        let hp = |m: MonitorView| conn(m) == i.hint;
        match first_where(av, hp) {
            Some(k) => {
                let k0 = choose|k0: int| crate::seqs::is_first(av, hp, k0);
                crate::seqs::lemma_first_where_at(av, hp, k0);
                assert(av.contains(av[k]));
            },
            None => {
                assert forall|t: int| 0 <= t < ms.len() implies !#[trigger] answers(ms, used, i, ms[t]) by {
                    if answers(ms, used, i, ms[t]) {
                        assert(av.contains(ms[t]));
                        let k = choose|k: int| 0 <= k < av.len() && av[k] == ms[t];
                        crate::seqs::lemma_first_where_some(av, hp, k);
                    }
                }
            },
        }
    } else {
        let ep = |m: MonitorView| same_edid(m, i);
        let full = av.filter(ep);
        assert forall|m: MonitorView| #[trigger] full.contains(m) <==> av.contains(m) && same_edid(m, i) by {
            if full.contains(m) {
                av.lemma_filter_contains_rev(ep, m);
                let k = choose|k: int| 0 <= k < full.len() && full[k] == m;
                av.lemma_filter_pred(ep, k);
            }
            if av.contains(m) && same_edid(m, i) {
                let k = choose|k: int| 0 <= k < av.len() && av[k] == m;
                av.lemma_filter_contains(ep, k);
            }
        }
        assert forall|t: int| 0 <= t < ms.len() implies #[trigger] answers(ms, used, i, ms[t]) == full.contains(ms[t]) by {
            assert(ms.contains(ms[t]));
        }
        assert forall|k: int| 0 <= k < full.len() implies answers(ms, used, i, #[trigger] full[k]) by {
            assert(full.contains(full[k]));
        }
        if full.len() == 1 {
            assert forall|t: int| 0 <= t < ms.len() && #[trigger] answers(ms, used, i, ms[t]) implies ms[t] == full[0] by {
                assert(full.contains(ms[t]));
            }
        } else if full.len() == 0 {
            assert forall|t: int| 0 <= t < ms.len() implies !#[trigger] answers(ms, used, i, ms[t]) by {
                if answers(ms, used, i, ms[t]) {
                    assert(full.contains(ms[t]));
                }
            }
        } else {
            let hp = |m: MonitorView| conn(m) == i.hint;
            match first_where(full, hp) {
                Some(k) => {
                    let k0 = choose|k0: int| crate::seqs::is_first(full, hp, k0);
                    crate::seqs::lemma_first_where_at(full, hp, k0);
                },
                None => {
                    let cs = full.map_values(|m: MonitorView| conn(m));
                    assert forall|k: int| 0 <= k < cs.len() implies exists|t: int|
                        0 <= t < ms.len() && answers(ms, used, i, ms[t]) && #[trigger] cs[k] == conn(ms[t]) by {
                        assert(full.contains(full[k]));
                        assert(av.contains(full[k]));
                        let t = choose|t: int| 0 <= t < ms.len() && ms[t] == full[k];
                        assert(answers(ms, used, i, ms[t]));
                    }
                    assert forall|t: int| 0 <= t < ms.len() && #[trigger] answers(ms, used, i, ms[t]) implies conn(ms[t])
                        != i.hint by {
                        assert(full.contains(ms[t]));
                        let k = choose|k: int| 0 <= k < full.len() && full[k] == ms[t];
                        if conn(ms[t]) == i.hint {
                            crate::seqs::lemma_first_where_some(full, hp, k);
                        }
                    }
                },
            }
        }
    }
}

/// Resolving a stored mode: the result is the ID of a mode of the monitor
/// with the stored width and height and a refresh rate within the
/// tolerance of the stored one, no other such mode being closer in rate;
/// there is none exactly when no mode fits.
pub proof fn lemma_resolve_mode_law(m: MonitorView, s: ModeSpec)
    ensures
        resolve_mode_spec(m, s) matches Some(id) ==> exists|k: int|
            0 <= k < m.modes.len() && (#[trigger] m.modes[k]).id == id && m.modes[k].width == s.width
                && m.modes[k].height == s.height && abs_int(m.modes[k].refresh - s.refresh_milli_hz * 1000)
                <= REFRESH_MATCH_EPS && forall|j: int|
                0 <= j < m.modes.len() && (#[trigger] m.modes[j]).width == s.width && m.modes[j].height == s.height
                    && abs_int(m.modes[j].refresh - s.refresh_milli_hz * 1000) <= REFRESH_MATCH_EPS ==> abs_int(
                    m.modes[k].refresh - s.refresh_milli_hz * 1000,
                ) <= abs_int(m.modes[j].refresh - s.refresh_milli_hz * 1000),
        resolve_mode_spec(m, s) is None ==> forall|j: int|
            0 <= j < m.modes.len() ==> !((#[trigger] m.modes[j]).width == s.width && m.modes[j].height == s.height
                && abs_int(m.modes[j].refresh - s.refresh_milli_hz * 1000) <= REFRESH_MATCH_EPS),
{
    lemma_best_fit_closest(m.modes, s, m.modes.len() as int);
    if let Some(k) = best_fit_upto(m.modes, s, m.modes.len() as int) {
        assert(mode_fits(m.modes[k], s));
        assert forall|j: int|
            0 <= j < m.modes.len() && (#[trigger] m.modes[j]).width == s.width && m.modes[j].height == s.height
                && abs_int(m.modes[j].refresh - s.refresh_milli_hz * 1000) <= REFRESH_MATCH_EPS implies abs_int(
            m.modes[k].refresh - s.refresh_milli_hz * 1000,
        ) <= abs_int(m.modes[j].refresh - s.refresh_milli_hz * 1000) by {
            assert(mode_fits(m.modes[j], s));
        }
        assert(m.modes[k].id == resolve_mode_spec(m, s)->0);
    } else {
        assert forall|j: int| 0 <= j < m.modes.len() implies !((#[trigger] m.modes[j]).width == s.width
            && m.modes[j].height == s.height && abs_int(m.modes[j].refresh - s.refresh_milli_hz * 1000)
            <= REFRESH_MATCH_EPS) by {
            assert(!mode_fits(m.modes[j], s));
        }
    }
}

proof fn lemma_best_fit_closest(modes: Seq<ModeView>, s: ModeSpec, n: int)
    requires
        0 <= n <= modes.len(),
    ensures
        best_fit_upto(modes, s, n) matches Some(k) ==> 0 <= k < n && mode_fits(modes[k], s) && forall|j: int|
            0 <= j < n && #[trigger] mode_fits(modes[j], s) ==> mode_dist(modes[k], s) <= mode_dist(modes[j], s),
        best_fit_upto(modes, s, n) is None ==> forall|j: int| 0 <= j < n ==> !#[trigger] mode_fits(modes[j], s),
    decreases n,
{
    if n > 0 {
        lemma_best_fit_closest(modes, s, n - 1);
    }
}

} // verus!
