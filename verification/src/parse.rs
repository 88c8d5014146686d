//! Interpretation of a `GetCurrentState` reply.
//!
//! Parsing is tolerant: every `a{sv}` property is optional, unknown
//! properties are kept (as the compositor's rendering of their value) in
//! `extra`, and documented defaults apply to absent ones. Only
//! structurally impossible data is an error. Rates are in microhertz and
//! scales in millionths.
use vstd::prelude::*;
use crate::error::{BackendError, BackendErrorView};
use crate::identity::{byte_len, str_eq, utf8_len, MonitorIdentity};
use crate::layout::{
    find_monitor, layout_mode_from_wire, AssignmentView, DisplayLayout, DisplayView, LayoutMode,
    LogicalDisplay, MonitorAssignment, monitors_view,
};
use crate::mode::{ExtraProps, ModeView, MonitorMode};
use crate::monitor::{
    color_mode_from_wire, rgb_range_from_wire, ColorMode, MonitorView, PhysicalMonitor, RgbRange,
};
use crate::seqs::first_where;
use crate::state::DisplayState;
use crate::text::{int_text, push_int, push_str};
use crate::transform::{transform_from_wire, Transform};

verus! {

/// A property value as sent by the compositor.
#[derive(Debug, PartialEq)]
pub enum PropValue {
    Bool(bool),
    I32(i32),
    U32(u32),
    Str(String),
    /// An array; each element is `Some` when it is a `u32`.
    Array(Vec<Option<u32>>),
    /// Any other type.
    Other,
}

pub ghost enum PropValueView {
    Bool(bool),
    I32(i32),
    U32(u32),
    Str(Seq<char>),
    Array(Seq<Option<u32>>),
    Other,
}

impl View for PropValue {
    type V = PropValueView;

    open spec fn view(&self) -> PropValueView {
        match self {
            PropValue::Bool(b) => PropValueView::Bool(*b),
            PropValue::I32(v) => PropValueView::I32(*v),
            PropValue::U32(v) => PropValueView::U32(*v),
            PropValue::Str(s) => PropValueView::Str(s@),
            PropValue::Array(a) => PropValueView::Array(a@),
            PropValue::Other => PropValueView::Other,
        }
    }
}

/// One `a{sv}` entry: key, value, and the compositor's rendering of the
/// value (kept for unknown properties).
pub type Prop = (String, PropValue, String);

/// An `a{sv}` dictionary.
pub type Props = Vec<Prop>;

pub open spec fn props_view(p: Seq<Prop>) -> Seq<(Seq<char>, PropValueView, Seq<char>)> {
    p.map_values(|e: Prop| (e.0@, e.1@, e.2@))
}

/// `(connector, vendor, product, serial)`.
pub type RawMonitorSpec = (String, String, String, String);

/// `(id, width, height, refresh, preferred_scale, supported_scales, properties)`.
pub type RawMode = (String, i32, i32, i64, i64, Vec<i64>, Props);

/// `(spec, modes, properties)`.
pub type RawMonitor = (RawMonitorSpec, Vec<RawMode>, Props);

/// `(x, y, scale, transform, primary, monitor_specs, properties)`.
pub type RawLogicalMonitor = (i32, i32, i64, u32, bool, Vec<RawMonitorSpec>, Props);

/// Full `GetCurrentState` reply.
pub type RawState = (u32, Vec<RawMonitor>, Vec<RawLogicalMonitor>, Props);

/// The value under `key` (the first entry with that key).
pub open spec fn prop_get(p: Seq<(Seq<char>, PropValueView, Seq<char>)>, key: Seq<char>) -> Option<PropValueView> {
    match first_where(p, |e: (Seq<char>, PropValueView, Seq<char>)| e.0 == key) {
        Some(i) => Some(p[i].1),
        None => None,
    }
}

pub open spec fn prop_bool(p: Seq<(Seq<char>, PropValueView, Seq<char>)>, key: Seq<char>) -> Option<bool> {
    match prop_get(p, key) {
        Some(PropValueView::Bool(b)) => Some(b),
        _ => None,
    }
}

pub open spec fn prop_i32(p: Seq<(Seq<char>, PropValueView, Seq<char>)>, key: Seq<char>) -> Option<i32> {
    match prop_get(p, key) {
        Some(PropValueView::I32(v)) => Some(v),
        _ => None,
    }
}

pub open spec fn prop_u32(p: Seq<(Seq<char>, PropValueView, Seq<char>)>, key: Seq<char>) -> Option<u32> {
    match prop_get(p, key) {
        Some(PropValueView::U32(v)) => Some(v),
        _ => None,
    }
}

pub open spec fn prop_string(p: Seq<(Seq<char>, PropValueView, Seq<char>)>, key: Seq<char>) -> Option<Seq<char>> {
    match prop_get(p, key) {
        Some(PropValueView::Str(s)) => Some(s),
        _ => None,
    }
}

/// The `u32` elements of an array property.
pub open spec fn prop_u32_array(p: Seq<(Seq<char>, PropValueView, Seq<char>)>, key: Seq<char>) -> Option<Seq<u32>> {
    match prop_get(p, key) {
        Some(PropValueView::Array(a)) => Some(a.filter_map(|x: Option<u32>| x)),
        _ => None,
    }
}

/// How many leading characters of `t` fit in `budget` bytes of UTF-8.
pub open spec fn chars_within(t: Seq<char>, budget: int) -> nat
    decreases t.len(),
{
    if t.len() == 0 || budget < utf8_len(t[0]) {
        0
    } else {
        1 + chars_within(t.skip(1), budget - utf8_len(t[0]))
    }
}

/// Rendering of an unknown property: text over 200 bytes of UTF-8 is cut
/// to its first 200 bytes (at the character boundary before, where byte 200
/// falls inside a character) and marked with `…`.
pub open spec fn bounded_text(t: Seq<char>) -> Seq<char> {
    if byte_len(t) > 200 {
        t.take(chars_within(t, 200) as int).push('…')
    } else {
        t
    }
}

/// The unknown properties with their renderings.
pub open spec fn extras_spec(p: Seq<(Seq<char>, PropValueView, Seq<char>)>, known: Seq<Seq<char>>) -> Seq<(Seq<char>, Seq<char>)> {
    p.filter(|e: (Seq<char>, PropValueView, Seq<char>)| !known.contains(e.0)).map_values(
        |e: (Seq<char>, PropValueView, Seq<char>)| (e.0, bounded_text(e.2)),
    )
}

/// Property names of a property list.
pub open spec fn prop_keys(p: Seq<(Seq<char>, PropValueView, Seq<char>)>) -> Seq<Seq<char>> {
    p.map_values(|e: (Seq<char>, PropValueView, Seq<char>)| e.0)
}

/// When every property name occurs once, so does every name among the
/// unknown properties kept.
pub proof fn lemma_extras_keys_unique(p: Seq<(Seq<char>, PropValueView, Seq<char>)>, known: Seq<Seq<char>>)
    requires
        prop_keys(p).no_duplicates(),
    ensures
        extras_spec(p, known).map_values(|e: (Seq<char>, Seq<char>)| e.0).no_duplicates(),
{
    let f = |e: (Seq<char>, PropValueView, Seq<char>)| !known.contains(e.0);
    lemma_filter_keys_unique(p, f);
    let q = p.filter(f);
    let out = extras_spec(p, known);
    assert(out.map_values(|e: (Seq<char>, Seq<char>)| e.0) =~= prop_keys(q));
}

proof fn lemma_filter_keys_unique(
    p: Seq<(Seq<char>, PropValueView, Seq<char>)>,
    f: spec_fn((Seq<char>, PropValueView, Seq<char>)) -> bool,
)
    requires
        prop_keys(p).no_duplicates(),
    ensures
        prop_keys(p.filter(f)).no_duplicates(),
    decreases p.len(),
{
    reveal(Seq::filter);
    if p.len() > 0 {
        let q = p.drop_last();
        assert(prop_keys(q).no_duplicates()) by {
            assert forall|i: int, j: int| 0 <= i < prop_keys(q).len() && 0 <= j < prop_keys(q).len() && i != j implies
                prop_keys(q)[i] != prop_keys(q)[j] by {
                assert(prop_keys(q)[i] == prop_keys(p)[i] && prop_keys(q)[j] == prop_keys(p)[j]);
            }
        }
        lemma_filter_keys_unique(q, f);
        let fq = q.filter(f);
        if f(p.last()) {
            let r = fq.push(p.last());
            assert(p.filter(f) == r);
            assert forall|i: int, j: int| 0 <= i < prop_keys(r).len() && 0 <= j < prop_keys(r).len() && i != j implies
                prop_keys(r)[i] != prop_keys(r)[j] by {
                if i == fq.len() || j == fq.len() {
                    let k = if i == fq.len() { j } else { i };
                    assert(fq.contains(fq[k]));
                    q.lemma_filter_contains_rev(f, fq[k]);
                    let t = choose|t: int| 0 <= t < q.len() && q[t] == fq[k];
                    assert(prop_keys(p)[t] == fq[k].0);
                    assert(prop_keys(p)[p.len() - 1] == p.last().0);
                } else {
                    assert(prop_keys(r)[i] == prop_keys(fq)[i] && prop_keys(r)[j] == prop_keys(fq)[j]);
                }
            }
        } else {
            assert(p.filter(f) == fq);
        }
    }
}

pub open spec fn known_monitor_props() -> Seq<Seq<char>> {
    seq![
        "width-mm"@,
        "height-mm"@,
        "is-underscanning"@,
        "max-screen-size"@,
        "is-builtin"@,
        "display-name"@,
        "min-refresh-rate"@,
        "is-for-lease"@,
        "color-mode"@,
        "supported-color-modes"@,
        "rgb-range"@,
    ]
}

pub open spec fn known_mode_props() -> Seq<Seq<char>> {
    seq!["is-current"@, "is-preferred"@, "is-interlaced"@, "refresh-rate-mode"@]
}

pub open spec fn known_state_props() -> Seq<Seq<char>> {
    seq!["layout-mode"@, "supports-changing-layout-mode"@, "global-scale-required"@, "supports-mirroring"@]
}

fn known_monitor_list() -> (r: Vec<&'static str>)
    ensures
        r@.map_values(|s: &str| s@) == known_monitor_props(),
{
    let v = vec![
        "width-mm",
        "height-mm",
        "is-underscanning",
        "max-screen-size",
        "is-builtin",
        "display-name",
        "min-refresh-rate",
        "is-for-lease",
        "color-mode",
        "supported-color-modes",
        "rgb-range",
    ];
    assert(v@.map_values(|s: &str| s@) =~= known_monitor_props());
    v
}

fn known_mode_list() -> (r: Vec<&'static str>)
    ensures
        r@.map_values(|s: &str| s@) == known_mode_props(),
{
    let v = vec!["is-current", "is-preferred", "is-interlaced", "refresh-rate-mode"];
    assert(v@.map_values(|s: &str| s@) =~= known_mode_props());
    v
}

fn known_state_list() -> (r: Vec<&'static str>)
    ensures
        r@.map_values(|s: &str| s@) == known_state_props(),
{
    let v = vec!["layout-mode", "supports-changing-layout-mode", "global-scale-required", "supports-mirroring"];
    assert(v@.map_values(|s: &str| s@) =~= known_state_props());
    v
}

/// The entry under `key`.
fn get<'a>(props: &'a Props, key: &str) -> (r: Option<&'a PropValue>)
    ensures
        match prop_get(props_view(props@), key@) {
            Some(v) => r matches Some(x) && x@ == v,
            None => r is None,
        },
{
    let ghost pv = props_view(props@);
    let mut i: usize = 0;
    while i < props.len()
        invariant
            pv == props_view(props@),
            i <= pv.len(),
            forall|j: int| 0 <= j < i ==> (#[trigger] pv[j]).0 != key@,
        decreases pv.len() - i,
    {
        assert(pv[i as int] == (props@[i as int].0@, props@[i as int].1@, props@[i as int].2@));
        if str_eq(props[i].0.as_str(), key) {
            proof {
                crate::seqs::lemma_first_where_at(
                    pv,
                    |e: (Seq<char>, PropValueView, Seq<char>)| e.0 == key@,
                    i as int,
                );
            }
            return Some(&props[i].1);
        }
        i += 1;
    }
    proof {
        crate::seqs::lemma_first_where_none(pv, |e: (Seq<char>, PropValueView, Seq<char>)| e.0 == key@);
    }
    None
}

fn get_bool(props: &Props, key: &str) -> (r: Option<bool>)
    ensures
        r == prop_bool(props_view(props@), key@),
{
    match get(props, key) {
        Some(PropValue::Bool(b)) => Some(*b),
        _ => None,
    }
}

fn get_i32(props: &Props, key: &str) -> (r: Option<i32>)
    ensures
        r == prop_i32(props_view(props@), key@),
{
    match get(props, key) {
        Some(PropValue::I32(v)) => Some(*v),
        _ => None,
    }
}

fn get_u32(props: &Props, key: &str) -> (r: Option<u32>)
    ensures
        r == prop_u32(props_view(props@), key@),
{
    match get(props, key) {
        Some(PropValue::U32(v)) => Some(*v),
        _ => None,
    }
}

fn get_string(props: &Props, key: &str) -> (r: Option<String>)
    ensures
        match prop_string(props_view(props@), key@) {
            Some(s) => r matches Some(x) && x@ == s,
            None => r is None,
        },
{
    match get(props, key) {
        Some(PropValue::Str(s)) => Some(s.clone()),
        _ => None,
    }
}

fn get_u32_array(props: &Props, key: &str) -> (r: Option<Vec<u32>>)
    ensures
        match prop_u32_array(props_view(props@), key@) {
            Some(s) => r matches Some(x) && x@ == s,
            None => r is None,
        },
{
    match get(props, key) {
        Some(PropValue::Array(a)) => {
            let ghost f = |x: Option<u32>| x;
            let mut out: Vec<u32> = Vec::new();
            let mut k: usize = 0;
            while k < a.len()
                invariant
                    f == (|x: Option<u32>| x),
                    k <= a@.len(),
                    out@ == a@.take(k as int).filter_map(f),
                decreases a@.len() - k,
            {
                proof {
                    a@.lemma_filter_map_take_succ(f, k as int);
                }
                match a[k] {
                    Some(v) => {
                        out.push(v);
                    },
                    None => {},
                }
                k += 1;
            }
            assert(a@.take(a@.len() as int) =~= a@);
            Some(out)
        },
        _ => None,
    }
}

fn contains_key(props: &Props, key: &str) -> (r: bool)
    ensures
        r == (prop_get(props_view(props@), key@) is Some),
{
    get(props, key).is_some()
}

fn in_list(list: &Vec<&'static str>, key: &String) -> (r: bool)
    ensures
        r == list@.map_values(|s: &str| s@).contains(key@),
{
    let ghost lv = list@.map_values(|s: &str| s@);
    let mut i: usize = 0;
    while i < list.len()
        invariant
            lv == list@.map_values(|s: &str| s@),
            i <= lv.len(),
            forall|j: int| 0 <= j < i ==> lv[j] != key@,
        decreases lv.len() - i,
    {
        assert(lv[i as int] == list@[i as int]@);
        if str_eq(list[i], key.as_str()) {
            return true;
        }
        i += 1;
    }
    false
}

fn bounded_exec(t: &String) -> (r: String)
    ensures
        r@ == bounded_text(t@),
{
    let cs = crate::text::chars_of(t.as_str());
    if crate::identity::utf8_bytes(&cs) > 200 {
        let mut out = String::new();
        let mut k: usize = 0;
        let mut room: u128 = 200;
        proof {
            assert(cs@.skip(0) =~= cs@);
        }
        while k < cs.len() && crate::identity::utf8_len_exec(cs[k]) <= room
            invariant
                cs@ == t@,
                k <= cs@.len(),
                room <= 200,
                out@ == cs@.take(k as int),
                chars_within(cs@, 200) == k + chars_within(cs@.skip(k as int), room as int),
            decreases cs@.len() - k,
        {
            proof {
                assert(cs@.skip(k as int).skip(1) =~= cs@.skip(k as int + 1));
                assert(cs@.skip(k as int)[0] == cs@[k as int]);
            }
            let c = cs[k];
            room = room - crate::identity::utf8_len_exec(c);
            crate::text::push_char(&mut out, c);
            k += 1;
            assert(out@ =~= cs@.take(k as int));
        }
        proof {
            if k < cs@.len() {
                assert(cs@.skip(k as int)[0] == cs@[k as int]);
            }
        }
        crate::text::push_char(&mut out, '…');
        out
    } else {
        t.clone()
    }
}

/// The unknown properties of `props` with their bounded renderings.
fn extras(props: &Props, known: &Vec<&'static str>) -> (r: ExtraProps)
    ensures
        crate::mode::extra_view(r@) == extras_spec(props_view(props@), known@.map_values(|s: &str| s@)),
{
    let ghost pv = props_view(props@);
    let ghost kv = known@.map_values(|s: &str| s@);
    let ghost pred = |e: (Seq<char>, PropValueView, Seq<char>)| !kv.contains(e.0);
    let ghost f = |e: (Seq<char>, PropValueView, Seq<char>)| (e.0, bounded_text(e.2));
    let mut out: ExtraProps = Vec::new();
    let mut i: usize = 0;
    while i < props.len()
        invariant
            pv == props_view(props@),
            kv == known@.map_values(|s: &str| s@),
            pred == (|e: (Seq<char>, PropValueView, Seq<char>)| !kv.contains(e.0)),
            f == (|e: (Seq<char>, PropValueView, Seq<char>)| (e.0, bounded_text(e.2))),
            i <= pv.len(),
            crate::mode::extra_view(out@) == pv.take(i as int).filter(pred).map_values(f),
        decreases pv.len() - i,
    {
        let e = &props[i];
        assert(pv[i as int] == (e.0@, e.1@, e.2@));
        proof {
            reveal(Seq::filter);
            let t1 = pv.take(i as int + 1);
            assert(t1.drop_last() =~= pv.take(i as int));
            assert(t1.last() == pv[i as int]);
        }
        let ghost prev = pv.take(i as int).filter(pred);
        if !in_list(known, &e.0) {
            let ghost before = out@;
            out.push((e.0.clone(), bounded_exec(&e.2)));
            assert(crate::mode::extra_view(out@) =~= crate::mode::extra_view(before).push(f(pv[i as int])));
            assert(prev.push(pv[i as int]).map_values(f) =~= prev.map_values(f).push(f(pv[i as int])));
        }
        i += 1;
    }
    assert(pv.take(pv.len() as int) =~= pv);
    out
}

pub open spec fn unwrap_or<T>(o: Option<T>, d: T) -> T {
    match o {
        Some(v) => v,
        None => d,
    }
}

/// The mode described by a raw mode.
pub open spec fn mode_of(raw: (Seq<char>, i32, i32, i64, i64, Seq<i64>, Seq<(Seq<char>, PropValueView, Seq<char>)>)) -> ModeView {
    let p = raw.6;
    ModeView {
        id: raw.0,
        width: raw.1,
        height: raw.2,
        refresh: raw.3,
        preferred_scale: raw.4,
        scales: raw.5,
        is_current: unwrap_or(prop_bool(p, "is-current"@), false),
        is_preferred: unwrap_or(prop_bool(p, "is-preferred"@), false),
        is_interlaced: unwrap_or(prop_bool(p, "is-interlaced"@), false),
        refresh_rate_mode: prop_string(p, "refresh-rate-mode"@),
        extra: extras_spec(p, known_mode_props()),
    }
}

pub open spec fn raw_mode_view(m: RawMode) -> (Seq<char>, i32, i32, i64, i64, Seq<i64>, Seq<(Seq<char>, PropValueView, Seq<char>)>) {
    (m.0@, m.1, m.2, m.3, m.4, m.5@, props_view(m.6@))
}

fn parse_mode(raw: &RawMode) -> (r: MonitorMode)
    ensures
        r@ == mode_of(raw_mode_view(*raw)),
{
    let known = known_mode_list();
    MonitorMode {
        id: raw.0.clone(),
        width: raw.1,
        height: raw.2,
        refresh_micro_hz: raw.3,
        preferred_scale: raw.4,
        supported_scales: crate::mode::clone_i64s(&raw.5),
        is_current: match get_bool(&raw.6, "is-current") {
            Some(b) => b,
            None => false,
        },
        is_preferred: match get_bool(&raw.6, "is-preferred") {
            Some(b) => b,
            None => false,
        },
        is_interlaced: match get_bool(&raw.6, "is-interlaced") {
            Some(b) => b,
            None => false,
        },
        refresh_rate_mode: get_string(&raw.6, "refresh-rate-mode"),
        extra: extras(&raw.6, &known),
    }
}

/// The monitor described by a raw monitor.
pub open spec fn monitor_of(raw: RawMonitor) -> MonitorView {
    let p = props_view(raw.2@);
    let w = prop_i32(p, "width-mm"@);
    let h = prop_i32(p, "height-mm"@);
    MonitorView {
        identity: MonitorIdentity {
            connector: raw.0.0,
            vendor: raw.0.1,
            product: raw.0.2,
            serial: raw.0.3,
        },
        display_name: prop_string(p, "display-name"@),
        modes: raw.1@.map_values(|m: RawMode| mode_of(raw_mode_view(m))),
        is_builtin: unwrap_or(prop_bool(p, "is-builtin"@), false),
        is_underscanning: unwrap_or(prop_bool(p, "is-underscanning"@), false),
        supports_underscanning: prop_get(p, "is-underscanning"@) is Some,
        is_for_lease: unwrap_or(prop_bool(p, "is-for-lease"@), false),
        color_mode: match prop_u32(p, "color-mode"@) {
            Some(v) => color_mode_from_wire(v),
            None => None,
        },
        supported_color_modes: unwrap_or(prop_u32_array(p, "supported-color-modes"@), Seq::empty()).filter_map(
            |v: u32| color_mode_from_wire(v),
        ),
        rgb_range: match prop_u32(p, "rgb-range"@) {
            Some(v) => rgb_range_from_wire(v),
            None => None,
        },
        min_refresh_rate: prop_i32(p, "min-refresh-rate"@),
        physical_size_mm: match (w, h) {
            (Some(a), Some(b)) => if a > 0 && b > 0 {
                Some((a, b))
            } else {
                None
            },
            _ => None,
        },
        extra: extras_spec(p, known_monitor_props()),
    }
}

fn parse_monitor(raw: &RawMonitor) -> (r: PhysicalMonitor)
    ensures
        r@.identity.connector@ == raw.0.0@,
        r@.identity.vendor@ == raw.0.1@,
        r@.identity.product@ == raw.0.2@,
        r@.identity.serial@ == raw.0.3@,
        r@ == (MonitorView { identity: r@.identity, ..monitor_of(*raw) }),
{
    let known = known_monitor_list();
    let props = &raw.2;
    let mut modes: Vec<MonitorMode> = Vec::new();
    let mut k: usize = 0;
    while k < raw.1.len()
        invariant
            k <= raw.1@.len(),
            crate::monitor::modes_view(modes@) == raw.1@.take(k as int).map_values(
                |m: RawMode| mode_of(raw_mode_view(m)),
            ),
        decreases raw.1@.len() - k,
    {
        let m = parse_mode(&raw.1[k]);
        let ghost before = modes@;
        modes.push(m);
        assert(crate::monitor::modes_view(modes@) =~= crate::monitor::modes_view(before).push(m@));
        assert(raw.1@.take(k as int + 1) =~= raw.1@.take(k as int).push(raw.1@[k as int]));
        k += 1;
    }
    assert(raw.1@.take(raw.1@.len() as int) =~= raw.1@);
    let color_mode = match get_u32(props, "color-mode") {
        Some(v) => ColorMode::from_u32(v),
        None => None,
    };
    let supported = match get_u32_array(props, "supported-color-modes") {
        Some(a) => a,
        None => Vec::new(),
    };
    let ghost f = |v: u32| color_mode_from_wire(v);
    let mut supported_color_modes: Vec<ColorMode> = Vec::new();
    let mut j: usize = 0;
    while j < supported.len()
        invariant
            f == (|v: u32| color_mode_from_wire(v)),
            j <= supported@.len(),
            supported_color_modes@ == supported@.take(j as int).filter_map(f),
        decreases supported@.len() - j,
    {
        proof {
            supported@.lemma_filter_map_take_succ(f, j as int);
        }
        match ColorMode::from_u32(supported[j]) {
            Some(c) => {
                supported_color_modes.push(c);
            },
            None => {},
        }
        j += 1;
    }
    assert(supported@.take(supported@.len() as int) =~= supported@);
    let rgb_range = match get_u32(props, "rgb-range") {
        Some(v) => RgbRange::from_u32(v),
        None => None,
    };
    let w = get_i32(props, "width-mm");
    let h = get_i32(props, "height-mm");
    let physical_size_mm = match (w, h) {
        (Some(a), Some(b)) => if a > 0 && b > 0 {
            Some((a, b))
        } else {
            None
        },
        _ => None,
    };
    PhysicalMonitor {
        identity: MonitorIdentity::new(raw.0.0.as_str(), raw.0.1.as_str(), raw.0.2.as_str(), raw.0.3.as_str()),
        display_name: get_string(props, "display-name"),
        modes,
        is_builtin: match get_bool(props, "is-builtin") {
            Some(b) => b,
            None => false,
        },
        is_underscanning: match get_bool(props, "is-underscanning") {
            Some(b) => b,
            None => false,
        },
        supports_underscanning: contains_key(props, "is-underscanning"),
        is_for_lease: match get_bool(props, "is-for-lease") {
            Some(b) => b,
            None => false,
        },
        color_mode,
        supported_color_modes,
        rgb_range,
        min_refresh_rate: get_i32(props, "min-refresh-rate"),
        physical_size_mm,
        extra: extras(props, &known),
    }
}

/// The monitors described by the raw monitors.
pub open spec fn monitors_of(raw: Seq<RawMonitor>) -> Seq<MonitorView> {
    raw.map_values(|m: RawMonitor| monitor_of(m))
}

/// A parsed monitor is the one a raw monitor describes (its identity
/// strings hold the same characters).
pub open spec fn parsed_as(m: MonitorView, raw: RawMonitor) -> bool {
    &&& m.identity.connector@ == raw.0.0@
    &&& m.identity.vendor@ == raw.0.1@
    &&& m.identity.product@ == raw.0.2@
    &&& m.identity.serial@ == raw.0.3@
    &&& m == (MonitorView { identity: m.identity, ..monitor_of(raw) })
}

/// The assignment of an active monitor: its current mode and output
/// settings, or why there is none.
pub open spec fn active_assignment(ms: Seq<MonitorView>, c: Seq<char>) -> Result<AssignmentView, Seq<char>> {
    match find_monitor(ms, c) {
        None => Err("logical monitor references unknown monitor "@ + c),
        Some(i) => match first_where(ms[i].modes, |m: ModeView| m.is_current) {
            None => Err("active monitor "@ + c + " reports no current mode"@),
            Some(k) => Ok(
                AssignmentView {
                    connector: c,
                    mode_id: ms[i].modes[k].id,
                    color_mode: ms[i].color_mode,
                    rgb_range: ms[i].rgb_range,
                    underscanning: if ms[i].supports_underscanning {
                        Some(ms[i].is_underscanning)
                    } else {
                        None
                    },
                },
            ),
        },
    }
}

/// Assignments of the first `n` connectors, or the first failure.
pub open spec fn active_assignments(ms: Seq<MonitorView>, cs: Seq<Seq<char>>, n: int) -> Result<Seq<AssignmentView>, Seq<char>>
    decreases n,
{
    if n <= 0 {
        Ok(Seq::empty())
    } else {
        match active_assignments(ms, cs, n - 1) {
            Err(e) => Err(e),
            Ok(a) => match active_assignment(ms, cs[n - 1]) {
                Err(e) => Err(e),
                Ok(x) => Ok(a.push(x)),
            },
        }
    }
}

pub open spec fn spec_connectors(specs: Seq<RawMonitorSpec>) -> Seq<Seq<char>> {
    specs.map_values(|s: RawMonitorSpec| s.0@)
}

/// The display a raw logical monitor describes, or why it is invalid.
pub open spec fn logical_of(ms: Seq<MonitorView>, raw: RawLogicalMonitor) -> Result<DisplayView, Seq<char>> {
    match transform_from_wire(raw.3) {
        None => Err("unknown transform value "@ + int_text(raw.3 as int) + " in logical monitor"@),
        Some(t) => match active_assignments(ms, spec_connectors(raw.5@), raw.5@.len() as int) {
            Err(e) => Err(e),
            Ok(a) => Ok(DisplayView { x: raw.0, y: raw.1, scale: raw.2, transform: t, primary: raw.4, monitors: a }),
        },
    }
}

/// The displays of the first `n` raw logical monitors, or the first
/// failure.
pub open spec fn logicals_of(ms: Seq<MonitorView>, raw: Seq<RawLogicalMonitor>, n: int) -> Result<Seq<DisplayView>, Seq<char>>
    decreases n,
{
    if n <= 0 {
        Ok(Seq::empty())
    } else {
        match logicals_of(ms, raw, n - 1) {
            Err(e) => Err(e),
            Ok(a) => match logical_of(ms, raw[n - 1]) {
                Err(e) => Err(e),
                Ok(x) => Ok(a.push(x)),
            },
        }
    }
}

fn parse_logical_monitor(raw: &RawLogicalMonitor, monitors: &Vec<PhysicalMonitor>) -> (r: Result<LogicalDisplay, String>)
    ensures
        match logical_of(monitors_view(monitors@), *raw) {
            Ok(d) => r matches Ok(x) && x@ == d,
            Err(e) => r matches Err(x) && x@ == e,
        },
{
    let ghost ms = monitors_view(monitors@);
    let transform = match Transform::from_u32(raw.3) {
        None => {
            let mut msg = String::new();
            push_str(&mut msg, "unknown transform value ");
            push_int(&mut msg, raw.3 as i64);
            push_str(&mut msg, " in logical monitor");
            assert(msg@ =~= "unknown transform value "@ + int_text(raw.3 as int) + " in logical monitor"@);
            return Err(msg);
        },
        Some(t) => t,
    };
    let ghost cs = spec_connectors(raw.5@);
    let mut assignments: Vec<MonitorAssignment> = Vec::new();
    assert(crate::layout::assignments_view(assignments@) =~= Seq::<AssignmentView>::empty());
    let mut k: usize = 0;
    while k < raw.5.len()
        invariant
            ms == monitors_view(monitors@),
            cs == spec_connectors(raw.5@),
            transform_from_wire(raw.3) == Some(transform),
            k <= raw.5@.len(),
            active_assignments(ms, cs, k as int) == Ok::<Seq<AssignmentView>, Seq<char>>(
                crate::layout::assignments_view(assignments@),
            ),
        decreases raw.5@.len() - k,
    {
        let c = &raw.5[k].0;
        assert(cs[k as int] == c@);
        let idx = crate::layout::find_monitor_index(monitors.as_slice(), c.as_str());
        match idx {
            None => {
                let mut msg = String::new();
                push_str(&mut msg, "logical monitor references unknown monitor ");
                push_str(&mut msg, c.as_str());
                proof {
                    assert(msg@ =~= "logical monitor references unknown monitor "@ + c@);
                    assert(active_assignment(ms, cs[k as int]) == Err::<AssignmentView, Seq<char>>(msg@));
                    assert(active_assignments(ms, cs, k as int + 1) == Err::<Seq<AssignmentView>, Seq<char>>(msg@));
                    lemma_assignments_err(ms, cs, k as int + 1, raw.5@.len() as int);
                }
                return Err(msg);
            },
            Some(i) => {
                let m = &monitors[i];
                assert(ms[i as int] == m@);
                match m.current_mode() {
                    None => {
                        let mut msg = String::new();
                        push_str(&mut msg, "active monitor ");
                        push_str(&mut msg, c.as_str());
                        push_str(&mut msg, " reports no current mode");
                        proof {
                            assert(msg@ =~= "active monitor "@ + c@ + " reports no current mode"@);
                            assert(active_assignment(ms, cs[k as int]) == Err::<AssignmentView, Seq<char>>(msg@));
                            assert(active_assignments(ms, cs, k as int + 1) == Err::<Seq<AssignmentView>, Seq<char>>(msg@));
                            lemma_assignments_err(ms, cs, k as int + 1, raw.5@.len() as int);
                        }
                        return Err(msg);
                    },
                    Some(md) => {
                        let a = MonitorAssignment {
                            connector: c.clone(),
                            mode_id: md.id.clone(),
                            color_mode: m.color_mode,
                            rgb_range: m.rgb_range,
                            underscanning: if m.supports_underscanning {
                                Some(m.is_underscanning)
                            } else {
                                None
                            },
                        };
                        let ghost before = assignments@;
                        assignments.push(a);
                        assert(crate::layout::assignments_view(assignments@) =~= crate::layout::assignments_view(
                            before,
                        ).push(a@));
                    },
                }
            },
        }
        k += 1;
    }
    Ok(LogicalDisplay { x: raw.0, y: raw.1, scale: raw.2, transform, primary: raw.4, monitors: assignments })
}

/// A failure on a prefix is the failure of every longer prefix.
proof fn lemma_assignments_err(ms: Seq<MonitorView>, cs: Seq<Seq<char>>, k: int, n: int)
    requires
        k <= n,
        active_assignments(ms, cs, k) is Err,
    ensures
        active_assignments(ms, cs, n) == active_assignments(ms, cs, k),
    decreases n - k,
{
    if k < n {
        lemma_assignments_err(ms, cs, k, n - 1);
    }
}

proof fn lemma_logicals_err(ms: Seq<MonitorView>, raw: Seq<RawLogicalMonitor>, k: int, n: int)
    requires
        k <= n,
        logicals_of(ms, raw, k) is Err,
    ensures
        logicals_of(ms, raw, n) == logicals_of(ms, raw, k),
    decreases n - k,
{
    if k < n {
        lemma_logicals_err(ms, raw, k, n - 1);
    }
}

/// Everything `parse_state` decides, over the monitors the reply describes.
pub open spec fn state_displays(raw: RawState) -> Result<Seq<DisplayView>, Seq<char>> {
    logicals_of(monitors_of(raw.1@), raw.2@, raw.2@.len() as int)
}

/// Interprets a `GetCurrentState` reply. The only failures are a logical
/// monitor with an unknown transform, an unknown monitor, or an active
/// monitor without a current mode.
pub fn parse_state(raw: &RawState) -> (r: Result<DisplayState, BackendError>)
    ensures
        match state_displays(*raw) {
            Err(e) => r matches Err(x) && x@ == BackendErrorView::Parse(e),
            Ok(d) => r matches Ok(s) && {
                let p = props_view(raw.3@);
                &&& s.serial == raw.0
                &&& s.monitors@.len() == raw.1@.len()
                &&& forall|i: int| 0 <= i < raw.1@.len() ==> parsed_as(#[trigger] s.monitors@[i]@, raw.1@[i])
                &&& s.layout@.displays == d
                &&& s.layout.layout_mode == match prop_u32(p, "layout-mode"@) {
                    Some(v) => unwrap_or(layout_mode_from_wire(v), LayoutMode::Logical),
                    None => LayoutMode::Logical,
                }
                &&& s.supports_changing_layout_mode == unwrap_or(
                    prop_bool(p, "supports-changing-layout-mode"@),
                    false,
                )
                &&& s.global_scale_required == unwrap_or(prop_bool(p, "global-scale-required"@), false)
                &&& s.supports_mirroring == prop_bool(p, "supports-mirroring"@)
                &&& crate::mode::extra_view(s.extra@) == extras_spec(p, known_state_props())
            },
        },
{
    let mut monitors: Vec<PhysicalMonitor> = Vec::new();
    let mut k: usize = 0;
    while k < raw.1.len()
        invariant
            k <= raw.1@.len(),
            monitors@.len() == k,
            forall|i: int| 0 <= i < k ==> parsed_as(#[trigger] monitors@[i]@, raw.1@[i]),
        decreases raw.1@.len() - k,
    {
        let m = parse_monitor(&raw.1[k]);
        monitors.push(m);
        k += 1;
    }
    let ghost ms = monitors_view(monitors@);
    proof {
        let mo = monitors_of(raw.1@);
        assert forall|i: int| 0 <= i < ms.len() implies #[trigger] ms[i] == (MonitorView {
            identity: ms[i].identity,
            ..mo[i]
        }) && ms[i].identity.connector@ == mo[i].identity.connector@ by {
            assert(ms[i] == monitors@[i]@);
            assert(mo[i] == monitor_of(raw.1@[i]));
            assert(parsed_as(monitors@[i]@, raw.1@[i]));
        }
        lemma_same_logicals(ms, monitors_of(raw.1@), raw.2@, raw.2@.len() as int);
    }
    let mut displays: Vec<LogicalDisplay> = Vec::new();
    assert(crate::layout::displays_view(displays@) =~= Seq::<DisplayView>::empty());
    let mut j: usize = 0;
    while j < raw.2.len()
        invariant
            ms == monitors_view(monitors@),
            logicals_of(ms, raw.2@, raw.2@.len() as int) == state_displays(*raw),
            j <= raw.2@.len(),
            logicals_of(ms, raw.2@, j as int) == Ok::<Seq<DisplayView>, Seq<char>>(
                crate::layout::displays_view(displays@),
            ),
        decreases raw.2@.len() - j,
    {
        match parse_logical_monitor(&raw.2[j], &monitors) {
            Err(e) => {
                proof {
                    lemma_logicals_err(ms, raw.2@, j as int + 1, raw.2@.len() as int);
                }
                return Err(BackendError::Parse(e));
            },
            Ok(d) => {
                let ghost before = displays@;
                displays.push(d);
                assert(crate::layout::displays_view(displays@) =~= crate::layout::displays_view(before).push(d@));
            },
        }
        j += 1;
    }
    let props = &raw.3;
    let layout_mode = match get_u32(props, "layout-mode") {
        Some(v) => match LayoutMode::from_u32(v) {
            Some(m) => m,
            None => LayoutMode::Logical,
        },
        None => LayoutMode::Logical,
    };
    let known = known_state_list();
    Ok(
        DisplayState {
            serial: raw.0,
            monitors,
            layout: DisplayLayout { layout_mode, logical_displays: displays },
            supports_changing_layout_mode: match get_bool(props, "supports-changing-layout-mode") {
                Some(b) => b,
                None => false,
            },
            global_scale_required: match get_bool(props, "global-scale-required") {
                Some(b) => b,
                None => false,
            },
            supports_mirroring: get_bool(props, "supports-mirroring"),
            extra: extras(props, &known),
        },
    )
}

/// Monitor lists that agree on everything but the identity strings (whose
/// characters agree) parse logical monitors alike.
proof fn lemma_same_logicals(a: Seq<MonitorView>, b: Seq<MonitorView>, raw: Seq<RawLogicalMonitor>, n: int)
    requires
        a.len() == b.len(),
        forall|i: int| 0 <= i < a.len() ==> #[trigger] a[i] == (MonitorView { identity: a[i].identity, ..b[i] }),
        forall|i: int| 0 <= i < a.len() ==> (#[trigger] a[i]).identity.connector@ == b[i].identity.connector@,
    ensures
        logicals_of(a, raw, n) == logicals_of(b, raw, n),
    decreases n,
{
    if n > 0 {
        lemma_same_logicals(a, b, raw, n - 1);
        let r = raw[n - 1];
        let cs = spec_connectors(r.5@);
        lemma_same_assignments(a, b, cs, r.5@.len() as int);
    }
}

proof fn lemma_same_assignments(a: Seq<MonitorView>, b: Seq<MonitorView>, cs: Seq<Seq<char>>, n: int)
    requires
        n <= cs.len(),
        a.len() == b.len(),
        forall|i: int| 0 <= i < a.len() ==> #[trigger] a[i] == (MonitorView { identity: a[i].identity, ..b[i] }),
        forall|i: int| 0 <= i < a.len() ==> (#[trigger] a[i]).identity.connector@ == b[i].identity.connector@,
    ensures
        active_assignments(a, cs, n) == active_assignments(b, cs, n),
    decreases n,
{
    if n > 0 {
        lemma_same_assignments(a, b, cs, n - 1);
        let c = cs[n - 1];
        let pc = |m: ModeView| m.is_current;
        let pa = crate::layout::connector_is(c);
        assert forall|i: int| 0 <= i < a.len() implies #[trigger] pa(a[i]) == pa(b[i]) by {}
        lemma_first_where_same(a, b, pa);
        assert(find_monitor(a, c) == first_where(a, pa));
        assert(find_monitor(b, c) == first_where(b, pa));
        match find_monitor(a, c) {
            Some(i) => {
                assert(0 <= i < a.len()) by {
                    assert(crate::seqs::is_first(a, pa, i));
                }
                assert(a[i].modes == b[i].modes);
                assert(a[i].color_mode == b[i].color_mode);
                assert(active_assignment(a, c) == active_assignment(b, c));
            },
            None => {},
        }
    }
}

/// Two sequences whose elements agree on `p` have the same first position
/// satisfying it.
proof fn lemma_first_where_same(a: Seq<MonitorView>, b: Seq<MonitorView>, p: spec_fn(MonitorView) -> bool)
    requires
        a.len() == b.len(),
        forall|i: int| 0 <= i < a.len() ==> #[trigger] p(a[i]) == p(b[i]),
    ensures
        first_where(a, p) == first_where(b, p),
{
    if exists|i: int| crate::seqs::is_first(a, p, i) {
        let i = choose|i: int| crate::seqs::is_first(a, p, i);
        assert(p(b[i]));
        assert forall|j: int| 0 <= j < i implies !p(#[trigger] b[j]) by {
            assert(!p(a[j]));
        }
        assert(crate::seqs::is_first(b, p, i));
        crate::seqs::lemma_first_where_at(a, p, i);
        crate::seqs::lemma_first_where_at(b, p, i);
    } else if exists|i: int| crate::seqs::is_first(b, p, i) {
        let i = choose|i: int| crate::seqs::is_first(b, p, i);
        assert(p(a[i]));
        assert forall|j: int| 0 <= j < i implies !p(#[trigger] a[j]) by {
            assert(!p(b[j]));
        }
        assert(crate::seqs::is_first(a, p, i));
    }
}

} // verus!
