//! Decisions of the layout editor: which problems it shows, whether the
//! edited layout differs from the applied one, how displays are numbered
//! on screen, and how monitors are named.
use vstd::prelude::*;
use crate::compare::layouts_equal;
use crate::layout::{find_monitor, monitors_view, DisplayLayout, DisplayView, LayoutView};
use crate::prefs::{display_name_of, is_kvm_of, AppPrefs};
use crate::state::DisplayState;
use crate::validation::{
    auto_fixable, normalize, normalize_fits, normalized, policy_of, problems_view, validate_spec,
    validate_state, LayoutProblem, ProblemView,
};

verus! {

/// The problems the editor shows: all but those fixed automatically
/// before an apply.
pub open spec fn shown_problems(s: Seq<ProblemView>) -> Seq<ProblemView> {
    s.filter(|p: ProblemView| !auto_fixable(p))
}

/// Problems in the edited layout; none while either the applied state or
/// the edited layout is missing.
pub fn problems(current: Option<&DisplayState>, edited: Option<&DisplayLayout>) -> (r: Vec<LayoutProblem>)
    ensures
        problems_view(r@) == match (current, edited) {
            (Some(s), Some(l)) => shown_problems(validate_spec(monitors_view(s.monitors@), l@, policy_of(*s))),
            _ => Seq::empty(),
        },
{
    match (current, edited) {
        (Some(state), Some(layout)) => {
            let mut all = validate_state(state, layout);
            let ghost pv = problems_view(all@);
            let ghost pred = |p: ProblemView| !auto_fixable(p);
            let mut out: Vec<LayoutProblem> = Vec::new();
            let ghost mut k: int = 0;
            assert(all@ =~= all@.skip(0));
            while all.len() > 0
                invariant
                    pred == (|p: ProblemView| !auto_fixable(p)),
                    0 <= k <= pv.len(),
                    problems_view(all@) == pv.skip(k),
                    all@.len() == pv.len() - k,
                    problems_view(out@) == pv.take(k).filter(pred),
                decreases all@.len(),
            {
                let ghost rest = all@;
                assert(problems_view(rest)[0] == rest[0]@);
                let p = all.remove(0);
                assert(p@ == pv[k]);
                assert(all@ =~= rest.skip(1));
                proof {
                    reveal(Seq::filter);
                    assert(pv.take(k + 1).drop_last() =~= pv.take(k));
                    assert(pv.take(k + 1).last() == pv[k]);
                    assert forall|t: int| 0 <= t < all@.len() implies #[trigger] problems_view(all@)[t] == pv.skip(k + 1)[t] by {
                        assert(problems_view(rest)[t + 1] == rest[t + 1]@);
                        assert(all@[t] == rest[t + 1]);
                    }
                    assert(problems_view(all@) =~= pv.skip(k + 1));
                }
                let ghost before = out@;
                if !p.is_auto_fixable() {
                    out.push(p);
                    assert(problems_view(out@) =~= problems_view(before).push(pv[k]));
                }
                proof {
                    k = k + 1;
                }
            }
            assert(pv.take(k) =~= pv);
            out
        },
        _ => {
            let none: Vec<LayoutProblem> = Vec::new();
            assert(problems_view(none@) =~= Seq::empty());
            none
        },
    }
}

/// Whether the edited layout differs from the applied one once both are
/// normalized; false while either is missing.
pub open spec fn dirty(current: Option<&DisplayState>, edited: Option<&DisplayLayout>) -> bool {
    match (current, edited) {
        (Some(s), Some(l)) => {
            let m = monitors_view(s.monitors@);
            normalized(m, s.layout@) != normalized(m, l@)
        },
        _ => false,
    }
}

/// Whether both layouts can be normalized against the applied monitors.
pub open spec fn dirty_check_fits(current: Option<&DisplayState>, edited: Option<&DisplayLayout>) -> bool {
    match (current, edited) {
        (Some(s), Some(l)) => {
            let m = monitors_view(s.monitors@);
            normalize_fits(m, s.layout@) && normalize_fits(m, l@)
        },
        _ => true,
    }
}

/// Whether the edited layout differs from what is applied.
pub fn is_dirty(current: Option<&DisplayState>, edited: Option<&DisplayLayout>) -> (r: bool)
    requires
        dirty_check_fits(current, edited),
    ensures
        r == dirty(current, edited),
{
    match (current, edited) {
        (Some(state), Some(layout)) => {
            let mut a = state.layout.clone();
            let mut b = layout.clone();
            normalize(&mut a, state.monitors.as_slice());
            normalize(&mut b, state.monitors.as_slice());
            !layouts_equal(&a, &b)
        },
        _ => false,
    }
}

/// Display `j` comes before display `i` in reading order: left to right,
/// then top to bottom, ties kept in list order.
pub open spec fn comes_before(d: Seq<DisplayView>, j: int, i: int) -> bool {
    ||| d[j].x < d[i].x
    ||| (d[j].x == d[i].x && d[j].y < d[i].y)
    ||| (d[j].x == d[i].x && d[j].y == d[i].y && j < i)
}

/// How many of the first `n` displays come before display `i`.
pub open spec fn count_before(d: Seq<DisplayView>, i: int, n: int) -> nat
    decreases n,
{
    if n <= 0 {
        0
    } else {
        count_before(d, i, n - 1) + if comes_before(d, n - 1, i) {
            1nat
        } else {
            0nat
        }
    }
}

/// Display numbers in reading order: `numbers[i]` is the position
/// (from 1) of display `i`.
pub open spec fn reading_numbers(d: Seq<DisplayView>) -> Seq<int> {
    Seq::new(d.len(), |i: int| count_before(d, i, d.len() as int) + 1int)
}

proof fn lemma_count_bound(d: Seq<DisplayView>, i: int, n: int)
    requires
        0 <= n,
    ensures
        count_before(d, i, n) <= n,
        0 <= i < n ==> count_before(d, i, n) < n,
    decreases n,
{
    if n > 0 {
        lemma_count_bound(d, i, n - 1);
    }
}

/// Position-based display numbers for the edited layout (left to right,
/// then top to bottom); empty without a layout.
pub fn display_numbers(edited: Option<&DisplayLayout>) -> (r: Vec<usize>)
    ensures
        r@.map_values(|v: usize| v as int) == match edited {
            Some(l) => reading_numbers(l@.displays),
            None => Seq::empty(),
        },
{
    let layout = match edited {
        Some(l) => l,
        None => {
            let none: Vec<usize> = Vec::new();
            assert(none@.map_values(|v: usize| v as int) =~= Seq::empty());
            return none;
        },
    };
    let ghost d = layout@.displays;
    let n = layout.logical_displays.len();
    let mut numbers: Vec<usize> = Vec::new();
    let mut i: usize = 0;
    while i < n
        invariant
            d == layout@.displays,
            n == d.len(),
            i <= n,
            numbers@.len() == i,
            forall|t: int| 0 <= t < i ==> #[trigger] numbers@[t] == reading_numbers(d)[t],
        decreases n - i,
    {
        let xi = layout.logical_displays[i].x;
        let yi = layout.logical_displays[i].y;
        let mut count: usize = 0;
        let mut j: usize = 0;
        while j < n
            invariant
                d == layout@.displays,
                n == d.len(),
                i < n,
                j <= n,
                xi == d[i as int].x,
                yi == d[i as int].y,
                count == count_before(d, i as int, j as int),
                count <= j,
            decreases n - j,
        {
            let xj = layout.logical_displays[j].x;
            let yj = layout.logical_displays[j].y;
            assert(d[j as int].x == xj && d[j as int].y == yj);
            if xj < xi || (xj == xi && yj < yi) || (xj == xi && yj == yi && j < i) {
                count += 1;
            }
            j += 1;
        }
        proof {
            lemma_count_bound(d, i as int, n as int);
        }
        numbers.push(count + 1);
        i += 1;
    }
    assert(numbers@.map_values(|v: usize| v as int) =~= reading_numbers(d));
    numbers
}

/// Display numbers are `1..=n`, each used once.
pub proof fn lemma_numbers_distinct(l: LayoutView, i: int, j: int)
    requires
        0 <= i < l.displays.len(),
        0 <= j < l.displays.len(),
        i != j,
    ensures
        1 <= reading_numbers(l.displays)[i] <= l.displays.len(),
        reading_numbers(l.displays)[i] != reading_numbers(l.displays)[j],
{
    let d = l.displays;
    let n = d.len() as int;
    lemma_count_bound(d, i, n);
    if comes_before(d, i, j) {
        lemma_count_monotone(d, i, j, n);
    } else {
        lemma_count_monotone(d, j, i, n);
    }
}

/// Whatever comes before `i` comes before `j` when `i` does, so `j` has a
/// strictly larger count once `i` is counted.
proof fn lemma_count_monotone(d: Seq<DisplayView>, i: int, j: int, n: int)
    requires
        0 <= i < d.len(),
        0 <= j < d.len(),
        i != j,
        comes_before(d, i, j),
        0 <= n <= d.len(),
    ensures
        count_before(d, j, n) >= count_before(d, i, n) + (if i < n {
            1int
        } else {
            0int
        }),
    decreases n,
{
    if n > 0 {
        lemma_count_monotone(d, i, j, n - 1);
        let k = n - 1;
        if comes_before(d, k, i) {
            assert(comes_before(d, k, j));
        }
        if k == i {
            assert(!comes_before(d, i, i));
        }
    }
}

/// The name shown for a connector: the preferences' name for its monitor,
/// or the connector itself when the monitor is unknown.
pub open spec fn shown_name(
    current: Option<&DisplayState>,
    prefs: Map<Seq<char>, crate::prefs::MonitorPrefsView>,
    connector: Seq<char>,
) -> Seq<char> {
    match current {
        Some(s) => match find_monitor(monitors_view(s.monitors@), connector) {
            Some(i) => display_name_of(prefs, monitors_view(s.monitors@)[i]),
            None => connector,
        },
        None => connector,
    }
}

/// Friendly display name for a connector.
pub fn name_of(current: Option<&DisplayState>, prefs: &AppPrefs, connector: &str) -> (r: String)
    requires
        prefs.wf(),
    ensures
        r@ == shown_name(current, prefs.map(), connector@),
{
    match current {
        Some(state) => match state.monitor(connector) {
            Some(m) => prefs.display_name(m),
            None => connector.to_owned(),
        },
        None => connector.to_owned(),
    }
}

/// Whether the monitor on a connector is treated as the KVM display.
pub fn is_kvm(current: Option<&DisplayState>, prefs: &AppPrefs, connector: &str) -> (r: bool)
    requires
        prefs.wf(),
        current matches Some(s) ==> forall|i: int|
            0 <= i < s.monitors@.len() ==> crate::prefs::kvm_decidable(prefs.map(), #[trigger] s.monitors@[i]@),
    ensures
        r == match current {
            Some(s) => match find_monitor(monitors_view(s.monitors@), connector@) {
                Some(i) => is_kvm_of(prefs.map(), monitors_view(s.monitors@)[i]),
                None => false,
            },
            None => false,
        },
{
    match current {
        Some(state) => match state.monitor(connector) {
            Some(m) => {
                proof {
                    let i = find_monitor(monitors_view(state.monitors@), connector@)->0;
                    assert(monitors_view(state.monitors@)[i] == state.monitors@[i]@);
                }
                prefs.is_kvm(m)
            },
            None => false,
        },
        None => false,
    }
}

} // verus!
