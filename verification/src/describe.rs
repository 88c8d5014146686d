//! Texts and checks around the editor: the arrangement description for
//! assistive technology, the identification labels, and the last check
//! before a layout is sent to the compositor.
use vstd::prelude::*;
use crate::layout::{assignments_view, monitors_view, AssignmentView, DisplayLayout, DisplayView, LayoutView};
use crate::monitor::MonitorView;
use crate::prefs::{AppPrefs, MonitorPrefsView};
use crate::state::DisplayState;
use crate::text::{int_text, push_int, push_str};
use crate::ui_state::{name_of, problems, reading_numbers, shown_name, shown_problems};
use crate::validation::{
    normalize, normalize_fits, normalized, policy_of, problems_view, validate_spec, LayoutProblem,
    ProblemView,
};

verus! {

/// `parts` separated by `sep`.
pub open spec fn join_with(parts: Seq<Seq<char>>, sep: Seq<char>) -> Seq<char>
    decreases parts.len(),
{
    if parts.len() == 0 {
        Seq::empty()
    } else if parts.len() == 1 {
        parts[0]
    } else {
        join_with(parts.drop_last(), sep) + sep + parts.last()
    }
}

/// An em dash for an empty value.
pub open spec fn or_dash_text(s: Seq<char>) -> Seq<char> {
    if s.len() == 0 {
        "—"@
    } else {
        s
    }
}

/// The value, or an em dash when it is empty.
pub fn or_dash(s: &str) -> (r: String)
    ensures
        r@ == or_dash_text(s@),
{
    if s.is_empty() {
        "—".to_owned()
    } else {
        s.to_owned()
    }
}

/// The names of a display's members.
pub open spec fn member_names(
    current: Option<&DisplayState>,
    prefs: Map<Seq<char>, MonitorPrefsView>,
    d: DisplayView,
) -> Seq<Seq<char>> {
    d.monitors.map_values(|a: AssignmentView| shown_name(current, prefs, a.connector))
}

/// The member names of a display joined by `sep`.
fn names_joined(current: Option<&DisplayState>, prefs: &AppPrefs, d: &crate::layout::LogicalDisplay, sep: &str) -> (r: String)
    requires
        prefs.wf(),
    ensures
        r@ == join_with(member_names(current, prefs.map(), d@), sep@),
{
    let ghost names = member_names(current, prefs.map(), d@);
    let mut out = String::new();
    let mut k: usize = 0;
    while k < d.monitors.len()
        invariant
            prefs.wf(),
            names == member_names(current, prefs.map(), d@),
            k <= names.len(),
            out@ == join_with(names.take(k as int), sep@),
        decreases names.len() - k,
    {
        assert(names[k as int] == shown_name(current, prefs.map(), d.monitors@[k as int]@.connector));
        let name = name_of(current, prefs, d.monitors[k].connector.as_str());
        if k > 0 {
            push_str(&mut out, sep);
        }
        push_str(&mut out, name.as_str());
        proof {
            assert(names.take(k + 1).drop_last() =~= names.take(k as int));
            if k == 0 {
                assert(out@ =~= names.take(1)[0]);
            }
        }
        k += 1;
    }
    assert(names.take(names.len() as int) =~= names);
    out
}

/// How display `i` is described: its number, member names, and whether
/// it is primary or selected.
pub open spec fn display_part(
    current: Option<&DisplayState>,
    prefs: Map<Seq<char>, MonitorPrefsView>,
    d: DisplayView,
    i: int,
    selected: Option<usize>,
) -> Seq<char> {
    "Display "@ + int_text(i + 1) + ": "@ + join_with(member_names(current, prefs, d), " mirrored with "@) + (if d.primary {
        ", primary"@
    } else {
        Seq::empty()
    }) + (if selected == Some(i as usize) {
        ", selected"@
    } else {
        Seq::empty()
    })
}

pub open spec fn display_parts(
    current: Option<&DisplayState>,
    prefs: Map<Seq<char>, MonitorPrefsView>,
    l: LayoutView,
    selected: Option<usize>,
) -> Seq<Seq<char>> {
    Seq::new(l.displays.len(), |i: int| display_part(current, prefs, l.displays[i], i, selected))
}

/// The description of the arrangement for assistive technology.
pub open spec fn arrangement_text(
    current: Option<&DisplayState>,
    prefs: Map<Seq<char>, MonitorPrefsView>,
    l: LayoutView,
    selected: Option<usize>,
) -> Seq<char> {
    "Monitor arrangement with "@ + int_text(l.displays.len() as int) + " displays. "@ + join_with(
        display_parts(current, prefs, l, selected),
        ". "@,
    ) + ". Use Tab to cycle displays and arrow keys to move the selected display."@
}

/// Describes the arrangement and the selection for assistive technology:
/// the display cards are drawings, so the description carries what a
/// screen reader cannot pick up from them.
pub fn arrangement_label(
    current: Option<&DisplayState>,
    prefs: &AppPrefs,
    layout: &DisplayLayout,
    selected: Option<usize>,
) -> (r: String)
    requires
        prefs.wf(),
        layout@.displays.len() < i64::MAX,
    ensures
        r@ == arrangement_text(current, prefs.map(), layout@, selected),
{
    let ghost parts = display_parts(current, prefs.map(), layout@, selected);
    let mut joined = String::new();
    let mut i: usize = 0;
    while i < layout.logical_displays.len()
        invariant
            prefs.wf(),
            layout@.displays.len() < i64::MAX,
            parts == display_parts(current, prefs.map(), layout@, selected),
            i <= parts.len(),
            joined@ == join_with(parts.take(i as int), ". "@),
        decreases parts.len() - i,
    {
        let d = &layout.logical_displays[i];
        assert(layout@.displays[i as int] == d@);
        let mut part = String::new();
        push_str(&mut part, "Display ");
        push_int(&mut part, (i + 1) as i64);
        push_str(&mut part, ": ");
        let names = names_joined(current, prefs, d, " mirrored with ");
        push_str(&mut part, names.as_str());
        if d.primary {
            push_str(&mut part, ", primary");
        }
        let is_selected = match selected {
            Some(s) => s == i,
            None => false,
        };
        if is_selected {
            push_str(&mut part, ", selected");
        }
        assert(part@ =~= parts[i as int]);
        if i > 0 {
            push_str(&mut joined, ". ");
        }
        push_str(&mut joined, part.as_str());
        proof {
            assert(parts.take(i + 1).drop_last() =~= parts.take(i as int));
            if i == 0 {
                assert(joined@ =~= parts.take(1)[0]);
            }
        }
        i += 1;
    }
    assert(parts.take(parts.len() as int) =~= parts);
    let mut out = String::new();
    push_str(&mut out, "Monitor arrangement with ");
    push_int(&mut out, layout.logical_displays.len() as i64);
    push_str(&mut out, " displays. ");
    push_str(&mut out, joined.as_str());
    push_str(&mut out, ". Use Tab to cycle displays and arrow keys to move the selected display.");
    assert(out@ =~= arrangement_text(current, prefs.map(), layout@, selected));
    out
}

/// The identification labels of the first `n` displays: for each member
/// its connector, the display's number and the display's member names.
pub open spec fn labels_upto(
    current: Option<&DisplayState>,
    prefs: Map<Seq<char>, MonitorPrefsView>,
    l: LayoutView,
    n: int,
) -> Seq<(Seq<char>, i32, Seq<char>)>
    decreases n,
{
    if n <= 0 {
        Seq::empty()
    } else {
        let d = l.displays[n - 1];
        let number = reading_numbers(l.displays)[n - 1] as i32;
        let label = join_with(member_names(current, prefs, d), "  +  "@);
        labels_upto(current, prefs, l, n - 1) + d.monitors.map_values(
            |a: AssignmentView| (a.connector, number, label),
        )
    }
}

pub open spec fn label_view(v: Seq<(String, i32, String)>) -> Seq<(Seq<char>, i32, Seq<char>)> {
    v.map_values(|e: (String, i32, String)| (e.0@, e.1, e.2@))
}

/// What each monitor shows when the displays are identified: its
/// connector, the position-based number of its display, and the names of
/// the display's members. Empty without a layout.
pub fn identify_labels(current: Option<&DisplayState>, prefs: &AppPrefs, edited: Option<&DisplayLayout>) -> (r: Vec<(String, i32, String)>)
    requires
        prefs.wf(),
    ensures
        label_view(r@) == match edited {
            Some(l) => labels_upto(current, prefs.map(), l@, l@.displays.len() as int),
            None => Seq::empty(),
        },
{
    let mut out: Vec<(String, i32, String)> = Vec::new();
    let layout = match edited {
        Some(l) => l,
        None => {
            assert(label_view(out@) =~= Seq::empty());
            return out;
        },
    };
    let numbers = crate::ui_state::display_numbers(Some(layout));
    let ghost nv = reading_numbers(layout@.displays);
    assert(numbers@.len() == nv.len());
    let mut i: usize = 0;
    while i < layout.logical_displays.len()
        invariant
            prefs.wf(),
            nv == reading_numbers(layout@.displays),
            numbers@.map_values(|v: usize| v as int) == nv,
            numbers@.len() == layout@.displays.len(),
            i <= layout@.displays.len(),
            label_view(out@) == labels_upto(current, prefs.map(), layout@, i as int),
        decreases layout@.displays.len() - i,
    {
        let d = &layout.logical_displays[i];
        assert(layout@.displays[i as int] == d@);
        assert(nv[i as int] == numbers@[i as int] as int);
        let number = numbers[i] as i32;
        let label = names_joined(current, prefs, d, "  +  ");
        let ghost before = label_view(out@);
        let ghost added = d@.monitors.map_values(
            |a: AssignmentView| (a.connector, nv[i as int] as i32, label@),
        );
        let mut k: usize = 0;
        while k < d.monitors.len()
            invariant
                d@.monitors.len() == d.monitors@.len(),
                k <= d.monitors@.len(),
                added == d@.monitors.map_values(|a: AssignmentView| (a.connector, nv[i as int] as i32, label@)),
                number == nv[i as int] as i32,
                label_view(out@) == before + added.take(k as int),
            decreases d.monitors@.len() - k,
        {
            assert(d@.monitors[k as int] == d.monitors@[k as int]@);
            let ghost prev = out@;
            out.push((d.monitors[k].connector.clone(), number, label.clone()));
            assert(label_view(out@) =~= label_view(prev).push(added[k as int]));
            assert(added.take(k + 1) =~= added.take(k as int).push(added[k as int]));
            k += 1;
        }
        assert(added.take(k as int) =~= added);
        i += 1;
    }
    out
}

/// The keys identifying the connected monitors, in order.
pub open spec fn monitor_keys(ms: Seq<MonitorView>) -> Seq<Seq<char>> {
    ms.map_values(|m: MonitorView| m.identity.stable_key_view())
}

/// What happens to an edited layout right before it is sent.
pub enum SendDecision {
    /// The connected monitors changed since the layout was edited: review
    /// it first.
    MonitorsChanged,
    /// The normalized layout still has problems.
    Invalid(Vec<LayoutProblem>),
    /// Send this normalized layout with this serial.
    Send(u32, DisplayLayout),
}

pub ghost enum SendDecisionView {
    MonitorsChanged,
    Invalid(Seq<ProblemView>),
    Send(u32, LayoutView),
}

impl View for SendDecision {
    type V = SendDecisionView;

    open spec fn view(&self) -> SendDecisionView {
        match self {
            SendDecision::MonitorsChanged => SendDecisionView::MonitorsChanged,
            SendDecision::Invalid(p) => SendDecisionView::Invalid(problems_view(p@)),
            SendDecision::Send(s, l) => SendDecisionView::Send(*s, l@),
        }
    }
}

pub open spec fn send_decision(cached: Option<&DisplayState>, fresh: DisplayState, edited: LayoutView) -> SendDecisionView {
    let fm = monitors_view(fresh.monitors@);
    let cached_keys = match cached {
        Some(s) => monitor_keys(monitors_view(s.monitors@)),
        None => Seq::empty(),
    };
    if cached_keys != monitor_keys(fm) {
        SendDecisionView::MonitorsChanged
    } else {
        let l = normalized(fm, edited);
        let ps = shown_problems(validate_spec(fm, l, policy_of(fresh)));
        if ps.len() > 0 {
            SendDecisionView::Invalid(ps)
        } else {
            SendDecisionView::Send(fresh.serial, l)
        }
    }
}

fn keys_of(monitors: &Vec<crate::monitor::PhysicalMonitor>) -> (r: Vec<String>)
    ensures
        r@.map_values(|s: String| s@) == monitor_keys(monitors_view(monitors@)),
{
    let ghost mk = monitor_keys(monitors_view(monitors@));
    let mut out: Vec<String> = Vec::new();
    let mut i: usize = 0;
    while i < monitors.len()
        invariant
            mk == monitor_keys(monitors_view(monitors@)),
            i <= monitors@.len(),
            out@.map_values(|s: String| s@) == mk.take(i as int),
        decreases monitors@.len() - i,
    {
        assert(mk[i as int] == monitors@[i as int]@.identity.stable_key_view());
        let key = monitors[i].identity.stable_key();
        let ghost prev = out@;
        out.push(key);
        assert(out@.map_values(|s: String| s@) =~= prev.map_values(|s: String| s@).push(key@));
        i += 1;
        assert(out@.map_values(|s: String| s@) =~= mk.take(i as int));
    }
    assert(mk.take(mk.len() as int) =~= mk);
    out
}

fn same_keys(a: &Vec<String>, b: &Vec<String>) -> (r: bool)
    ensures
        r == (a@.map_values(|s: String| s@) == b@.map_values(|s: String| s@)),
{
    let ghost av = a@.map_values(|s: String| s@);
    let ghost bv = b@.map_values(|s: String| s@);
    if a.len() != b.len() {
        assert(av.len() != bv.len());
        return false;
    }
    let mut i: usize = 0;
    while i < a.len()
        invariant
            av == a@.map_values(|s: String| s@),
            bv == b@.map_values(|s: String| s@),
            a@.len() == b@.len(),
            i <= a@.len(),
            forall|j: int| 0 <= j < i ==> av[j] == bv[j],
        decreases a@.len() - i,
    {
        if !crate::identity::str_eq(a[i].as_str(), b[i].as_str()) {
            assert(av[i as int] != bv[i as int]);
            return false;
        }
        i += 1;
    }
    assert(av =~= bv);
    true
}

/// The last check before sending an edited layout: the connected
/// monitors must be those it was edited against, and the layout, once
/// normalized against the fresh state, must have no problems left.
pub fn prepare_send(cached: Option<&DisplayState>, fresh: &DisplayState, edited: &DisplayLayout) -> (r: SendDecision)
    requires
        normalize_fits(monitors_view(fresh.monitors@), edited@),
    ensures
        r@ == send_decision(cached, *fresh, edited@),
{
    let cached_keys = match cached {
        Some(s) => keys_of(&s.monitors),
        None => Vec::new(),
    };
    assert(cached is None ==> cached_keys@.map_values(|s: String| s@) =~= Seq::<Seq<char>>::empty());
    let fresh_keys = keys_of(&fresh.monitors);
    if !same_keys(&cached_keys, &fresh_keys) {
        return SendDecision::MonitorsChanged;
    }
    let mut layout = edited.clone();
    normalize(&mut layout, fresh.monitors.as_slice());
    let found = problems(Some(fresh), Some(&layout));
    if found.len() > 0 {
        SendDecision::Invalid(found)
    } else {
        SendDecision::Send(fresh.serial, layout)
    }
}

/// What the client-side check says of a proposed layout before the
/// compositor sees it.
#[derive(Debug, PartialEq)]
pub enum ClientVerdict {
    /// No problems.
    Valid,
    /// Only problems that normalizing fixes.
    ValidAfterNormalization(Vec<LayoutProblem>),
    /// Problems that need a change of the layout.
    Invalid(Vec<LayoutProblem>),
}

pub ghost enum ClientVerdictView {
    Valid,
    ValidAfterNormalization(Seq<ProblemView>),
    Invalid(Seq<ProblemView>),
}

impl View for ClientVerdict {
    type V = ClientVerdictView;

    open spec fn view(&self) -> ClientVerdictView {
        match self {
            ClientVerdict::Valid => ClientVerdictView::Valid,
            ClientVerdict::ValidAfterNormalization(p) => ClientVerdictView::ValidAfterNormalization(problems_view(p@)),
            ClientVerdict::Invalid(p) => ClientVerdictView::Invalid(problems_view(p@)),
        }
    }
}

pub open spec fn client_verdict_spec(ps: Seq<ProblemView>) -> ClientVerdictView {
    if ps.len() == 0 {
        ClientVerdictView::Valid
    } else if forall|k: int| 0 <= k < ps.len() ==> crate::validation::auto_fixable(#[trigger] ps[k]) {
        ClientVerdictView::ValidAfterNormalization(ps)
    } else {
        ClientVerdictView::Invalid(ps)
    }
}

/// Validates a proposed layout against the state it was built from.
pub fn client_verdict(state: &DisplayState, layout: &DisplayLayout) -> (r: ClientVerdict)
    ensures
        r@ == client_verdict_spec(validate_spec(monitors_view(state.monitors@), layout@, policy_of(*state))),
{
    let found = crate::validation::validate_state(state, layout);
    let ghost ps = problems_view(found@);
    if found.len() == 0 {
        return ClientVerdict::Valid;
    }
    let ok = crate::validation::is_appliable(found.as_slice());
    proof {
        if ok {
            assert forall|k: int| 0 <= k < ps.len() implies crate::validation::auto_fixable(#[trigger] ps[k]) by {
                assert(ps[k] == found@[k]@);
            }
        } else {
            let k = choose|k: int| 0 <= k < found@.len() && !crate::validation::auto_fixable(#[trigger] found@[k]@);
            assert(ps[k] == found@[k]@);
        }
    }
    if ok {
        ClientVerdict::ValidAfterNormalization(found)
    } else {
        ClientVerdict::Invalid(found)
    }
}

} // verus!
