//! Comparing layouts: exact equality, and equivalence up to the order of
//! logical displays and of mirror members (the compositor may reorder both).
use vstd::prelude::*;
use vstd::multiset::Multiset;
use crate::identity::str_eq;
use crate::layout::{
    assignments_view, displays_view, AssignmentView, DisplayLayout, DisplayView,
    LayoutView, LogicalDisplay, MonitorAssignment,
};
use crate::monitor::{ColorMode, RgbRange};
use crate::transform::Transform;

verus! {

broadcast use vstd::seq_lib::group_to_multiset_ensures;

fn same_color_mode(a: Option<ColorMode>, b: Option<ColorMode>) -> (r: bool)
    ensures
        r == (a == b),
{
    match (a, b) {
        (Some(x), Some(y)) => x == y,
        (None, None) => true,
        _ => false,
    }
}

fn same_rgb_range(a: Option<RgbRange>, b: Option<RgbRange>) -> (r: bool)
    ensures
        r == (a == b),
{
    match (a, b) {
        (Some(x), Some(y)) => x == y,
        (None, None) => true,
        _ => false,
    }
}

fn same_flag(a: Option<bool>, b: Option<bool>) -> (r: bool)
    ensures
        r == (a == b),
{
    match (a, b) {
        (Some(x), Some(y)) => x == y,
        (None, None) => true,
        _ => false,
    }
}

/// Whether two assignments are identical.
pub fn assignments_equal(a: &MonitorAssignment, b: &MonitorAssignment) -> (r: bool)
    ensures
        r == (a@ == b@),
{
    str_eq(a.connector.as_str(), b.connector.as_str()) && str_eq(a.mode_id.as_str(), b.mode_id.as_str())
        && same_color_mode(a.color_mode, b.color_mode) && same_rgb_range(a.rgb_range, b.rgb_range)
        && same_flag(a.underscanning, b.underscanning)
}

/// Whether two logical displays are identical.
pub fn displays_equal(a: &LogicalDisplay, b: &LogicalDisplay) -> (r: bool)
    ensures
        r == (a@ == b@),
{
    if a.x != b.x || a.y != b.y || a.scale != b.scale || a.transform != b.transform || a.primary != b.primary
        || a.monitors.len() != b.monitors.len() {
        assert(a@.monitors.len() == a.monitors@.len() && b@.monitors.len() == b.monitors@.len());
        return false;
    }
    let ghost av = assignments_view(a.monitors@);
    let ghost bv = assignments_view(b.monitors@);
    let mut i: usize = 0;
    while i < a.monitors.len()
        invariant
            av == assignments_view(a.monitors@),
            bv == assignments_view(b.monitors@),
            av.len() == bv.len(),
            i <= av.len(),
            forall|j: int| 0 <= j < i ==> #[trigger] av[j] == bv[j],
        decreases av.len() - i,
    {
        if !assignments_equal(&a.monitors[i], &b.monitors[i]) {
            assert(av[i as int] != bv[i as int]);
            return false;
        }
        i += 1;
    }
    assert(av =~= bv);
    true
}

/// Whether two layouts are identical.
pub fn layouts_equal(a: &DisplayLayout, b: &DisplayLayout) -> (r: bool)
    ensures
        r == (a@ == b@),
{
    if a.layout_mode != b.layout_mode || a.logical_displays.len() != b.logical_displays.len() {
        assert(a@.displays.len() == a.logical_displays@.len() && b@.displays.len() == b.logical_displays@.len());
        return false;
    }
    let ghost av = displays_view(a.logical_displays@);
    let ghost bv = displays_view(b.logical_displays@);
    let mut i: usize = 0;
    while i < a.logical_displays.len()
        invariant
            av == displays_view(a.logical_displays@),
            bv == displays_view(b.logical_displays@),
            av.len() == bv.len(),
            i <= av.len(),
            forall|j: int| 0 <= j < i ==> #[trigger] av[j] == bv[j],
        decreases av.len() - i,
    {
        if !displays_equal(&a.logical_displays[i], &b.logical_displays[i]) {
            assert(av[i as int] != bv[i as int]);
            return false;
        }
        i += 1;
    }
    assert(av =~= bv);
    true
}

/// What identifies a member when comparing layouts: connector and mode.
pub open spec fn member_key(a: AssignmentView) -> (Seq<char>, Seq<char>) {
    (a.connector, a.mode_id)
}

pub open spec fn member_keys(s: Seq<AssignmentView>) -> Seq<(Seq<char>, Seq<char>)> {
    s.map_values(|a: AssignmentView| member_key(a))
}

/// What identifies a logical display when comparing layouts: position,
/// scale, transform, primary flag and its members in any order.
pub open spec fn display_key(d: DisplayView) -> (i32, i32, i64, Transform, bool, Multiset<(Seq<char>, Seq<char>)>) {
    (d.x, d.y, d.scale, d.transform, d.primary, member_keys(d.monitors).to_multiset())
}

pub open spec fn display_keys(s: Seq<DisplayView>) -> Seq<(i32, i32, i64, Transform, bool, Multiset<(Seq<char>, Seq<char>)>)> {
    s.map_values(|d: DisplayView| display_key(d))
}

/// Two layouts are equivalent when they have the same mode and the same
/// logical displays, in any order, each with the same members in any order.
pub open spec fn equivalent(a: LayoutView, b: LayoutView) -> bool {
    &&& a.layout_mode == b.layout_mode
    &&& display_keys(a.displays).to_multiset() == display_keys(b.displays).to_multiset()
}

/// The elements of `s` at the positions `idx`, in that order.
pub open spec fn pick<A>(s: Seq<A>, idx: Seq<usize>) -> Seq<A> {
    idx.map_values(|p: usize| s[p as int])
}

/// Matching `x` against an equal element of `rest` reduces the question of
/// multiset equality to what remains on both sides.
proof fn lemma_match_step<A>(pre: Seq<A>, x: A, rest: Seq<A>, j: int)
    requires
        0 <= j < rest.len(),
        rest[j] == x,
    ensures
        (pre.push(x).to_multiset() == rest.to_multiset()) == (pre.to_multiset() == rest.remove(j).to_multiset()),
{
    let m = pre.to_multiset();
    let r = rest.to_multiset();
    assert(rest.contains(x));
    assert(r.count(x) > 0);
    if pre.push(x).to_multiset() == r {
        assert(m =~= r.remove(x));
    }
    if m == rest.remove(j).to_multiset() {
        assert(m.insert(x) =~= r);
    }
}

/// An element with no equal partner makes the multisets differ.
proof fn lemma_no_match<A>(pre: Seq<A>, x: A, rest: Seq<A>)
    requires
        !rest.contains(x),
    ensures
        pre.push(x).to_multiset() != rest.to_multiset(),
{
    assert(pre.push(x).to_multiset().count(x) > 0);
    assert(rest.to_multiset().count(x) == 0);
}

/// Indices `0..n`.
fn all_indices(n: usize) -> (r: Vec<usize>)
    ensures
        r@.len() == n,
        forall|k: int| 0 <= k < n ==> #[trigger] r@[k] == k,
{
    let mut out: Vec<usize> = Vec::new();
    let mut j: usize = 0;
    while j < n
        invariant
            j <= n,
            out@.len() == j,
            forall|k: int| 0 <= k < j ==> #[trigger] out@[k] == k,
        decreases n - j,
    {
        out.push(j);
        j += 1;
    }
    out
}

/// Whether two member lists hold the same connector/mode pairs, counted
/// with multiplicity, in any order.
pub fn same_members(a: &Vec<MonitorAssignment>, b: &Vec<MonitorAssignment>) -> (r: bool)
    ensures
        r == (member_keys(assignments_view(a@)).to_multiset() == member_keys(assignments_view(b@)).to_multiset()),
{
    let ghost ak = member_keys(assignments_view(a@));
    let ghost bk = member_keys(assignments_view(b@));
    let mut rest = all_indices(b.len());
    assert(pick(bk, rest@) =~= bk);
    assert(ak.take(ak.len() as int) =~= ak);
    let mut i: usize = a.len();
    while i > 0
        invariant
            ak == member_keys(assignments_view(a@)),
            bk == member_keys(assignments_view(b@)),
            i <= a@.len(),
            forall|k: int| 0 <= k < rest@.len() ==> #[trigger] rest@[k] < b@.len(),
            (ak.to_multiset() == bk.to_multiset()) == (ak.take(i as int).to_multiset() == pick(
                bk,
                rest@,
            ).to_multiset()),
        decreases i,
    {
        let x = &a[i - 1];
        let ghost rk = pick(bk, rest@);
        let ghost xk = ak[i - 1];
        assert(xk == member_key(x@));
        assert(ak.take(i as int) =~= ak.take(i - 1).push(xk));
        let mut p: usize = 0;
        let mut found = false;
        while p < rest.len() && !found
            invariant
                xk == member_key(x@),
                rk == pick(bk, rest@),
                bk == member_keys(assignments_view(b@)),
                forall|k: int| 0 <= k < rest@.len() ==> #[trigger] rest@[k] < b@.len(),
                p <= rest@.len(),
                !found ==> forall|q: int| 0 <= q < p ==> #[trigger] rk[q] != xk,
                found ==> p < rest@.len() && rk[p as int] == xk,
            decreases rest@.len() - p + (if found { 0int } else { 1int }),
        {
            let y = &b[rest[p]];
            assert(rk[p as int] == bk[rest@[p as int] as int]);
            assert(bk[rest@[p as int] as int] == member_key(y@));
            if str_eq(y.connector.as_str(), x.connector.as_str()) && str_eq(
                y.mode_id.as_str(),
                x.mode_id.as_str(),
            ) {
                found = true;
            } else {
                p += 1;
            }
        }
        if !found {
            proof {
                assert(!rk.contains(xk));
                lemma_no_match(ak.take(i - 1), xk, rk);
            }
            return false;
        }
        proof {
            lemma_match_step(ak.take(i - 1), xk, rk, p as int);
        }
        rest.remove(p);
        assert(pick(bk, rest@) =~= rk.remove(p as int));
        i -= 1;
    }
    assert(ak.take(0) =~= Seq::<(Seq<char>, Seq<char>)>::empty());
    assert(ak.take(0).to_multiset().len() == 0);
    assert(pick(bk, rest@).to_multiset().len() == rest@.len());
    proof {
        if rest@.len() == 0 {
            assert(pick(bk, rest@) =~= ak.take(0));
        }
    }
    rest.len() == 0
}

/// Whether two logical displays agree in position, scale, transform,
/// primary flag and (in any order) members.
fn same_display(a: &LogicalDisplay, b: &LogicalDisplay) -> (r: bool)
    ensures
        r == (display_key(a@) == display_key(b@)),
{
    a.x == b.x && a.y == b.y && a.scale == b.scale && a.transform == b.transform && a.primary == b.primary
        && same_members(&a.monitors, &b.monitors)
}

/// Whether two layouts are equivalent: same mode, and the same logical
/// displays in any order, each with the same members in any order.
pub fn layouts_equivalent(a: &DisplayLayout, b: &DisplayLayout) -> (r: bool)
    ensures
        r == equivalent(a@, b@),
{
    if a.layout_mode != b.layout_mode {
        return false;
    }
    let ghost ak = display_keys(a@.displays);
    let ghost bk = display_keys(b@.displays);
    let mut rest = all_indices(b.logical_displays.len());
    assert(pick(bk, rest@) =~= bk);
    assert(ak.take(ak.len() as int) =~= ak);
    let mut i: usize = a.logical_displays.len();
    while i > 0
        invariant
            ak == display_keys(a@.displays),
            bk == display_keys(b@.displays),
            i <= a.logical_displays@.len(),
            forall|k: int| 0 <= k < rest@.len() ==> #[trigger] rest@[k] < b.logical_displays@.len(),
            (ak.to_multiset() == bk.to_multiset()) == (ak.take(i as int).to_multiset() == pick(
                bk,
                rest@,
            ).to_multiset()),
        decreases i,
    {
        let x = &a.logical_displays[i - 1];
        let ghost rk = pick(bk, rest@);
        let ghost xk = ak[i - 1];
        assert(xk == display_key(x@));
        assert(ak.take(i as int) =~= ak.take(i - 1).push(xk));
        let mut p: usize = 0;
        let mut found = false;
        while p < rest.len() && !found
            invariant
                xk == display_key(x@),
                rk == pick(bk, rest@),
                bk == display_keys(b@.displays),
                forall|k: int| 0 <= k < rest@.len() ==> #[trigger] rest@[k] < b.logical_displays@.len(),
                p <= rest@.len(),
                !found ==> forall|q: int| 0 <= q < p ==> #[trigger] rk[q] != xk,
                found ==> p < rest@.len() && rk[p as int] == xk,
            decreases rest@.len() - p + (if found { 0int } else { 1int }),
        {
            let y = &b.logical_displays[rest[p]];
            assert(rk[p as int] == bk[rest@[p as int] as int]);
            assert(bk[rest@[p as int] as int] == display_key(y@));
            if same_display(y, x) {
                found = true;
            } else {
                p += 1;
            }
        }
        if !found {
            proof {
                assert(!rk.contains(xk));
                lemma_no_match(ak.take(i - 1), xk, rk);
            }
            return false;
        }
        proof {
            lemma_match_step(ak.take(i - 1), xk, rk, p as int);
        }
        rest.remove(p);
        assert(pick(bk, rest@) =~= rk.remove(p as int));
        i -= 1;
    }
    assert(ak.take(0) =~= Seq::<(i32, i32, i64, Transform, bool, Multiset<(Seq<char>, Seq<char>)>)>::empty());
    assert(ak.take(0).to_multiset().len() == 0);
    assert(pick(bk, rest@).to_multiset().len() == rest@.len());
    proof {
        if rest@.len() == 0 {
            assert(pick(bk, rest@) =~= ak.take(0));
        }
    }
    rest.len() == 0
}

/// Every layout is equivalent to itself.
pub proof fn lemma_equivalent_reflexive(a: LayoutView)
    ensures
        equivalent(a, a),
{
}

/// Equivalence does not depend on the order of the two layouts.
pub proof fn lemma_equivalent_symmetric(a: LayoutView, b: LayoutView)
    requires
        equivalent(a, b),
    ensures
        equivalent(b, a),
{
}

/// Exchanging two logical displays (the compositor may report them in
/// another order) gives an equivalent layout.
pub proof fn lemma_swap_displays_equivalent(l: LayoutView, i: int, j: int)
    requires
        0 <= i < l.displays.len(),
        0 <= j < l.displays.len(),
    ensures
        equivalent(
            l,
            LayoutView { displays: l.displays.update(i, l.displays[j]).update(j, l.displays[i]), ..l },
        ),
{
    broadcast use vstd::multiset::group_multiset_axioms;

    let d = l.displays;
    let s = d.update(i, d[j]).update(j, d[i]);
    let k = display_keys(d);
    assert(display_keys(s) =~= k.update(i, k[j]).update(j, k[i]));
    let m = k.to_multiset();
    assert(k.update(i, k[j]).to_multiset() == m.insert(k[j]).remove(k[i]));
    assert(k.update(i, k[j]).update(j, k[i]).to_multiset() == k.update(i, k[j]).to_multiset().insert(k[i]).remove(
        k[j],
    ));
    assert(m.count(k[i]) > 0 && m.count(k[j]) > 0) by {
        assert(k.contains(k[i]) && k.contains(k[j]));
    }
    assert(m.insert(k[j]).remove(k[i]).insert(k[i]).remove(k[j]) =~= m);
}

/// Exchanging two members of a logical display gives an equivalent
/// layout.
pub proof fn lemma_swap_members_equivalent(l: LayoutView, g: int, i: int, j: int)
    requires
        0 <= g < l.displays.len(),
        0 <= i < l.displays[g].monitors.len(),
        0 <= j < l.displays[g].monitors.len(),
    ensures
        equivalent(
            l,
            LayoutView {
                displays: l.displays.update(
                    g,
                    DisplayView {
                        monitors: l.displays[g].monitors.update(i, l.displays[g].monitors[j]).update(
                            j,
                            l.displays[g].monitors[i],
                        ),
                        ..l.displays[g]
                    },
                ),
                ..l
            },
        ),
{
    broadcast use vstd::multiset::group_multiset_axioms;

    let d = l.displays[g];
    let ms = d.monitors;
    let swapped = ms.update(i, ms[j]).update(j, ms[i]);
    let k = member_keys(ms);
    assert(member_keys(swapped) =~= k.update(i, k[j]).update(j, k[i]));
    let m = k.to_multiset();
    assert(k.update(i, k[j]).to_multiset() == m.insert(k[j]).remove(k[i]));
    assert(k.update(i, k[j]).update(j, k[i]).to_multiset() == k.update(i, k[j]).to_multiset().insert(k[i]).remove(
        k[j],
    ));
    assert(m.count(k[i]) > 0 && m.count(k[j]) > 0) by {
        assert(k.contains(k[i]) && k.contains(k[j]));
    }
    assert(m.insert(k[j]).remove(k[i]).insert(k[i]).remove(k[j]) =~= m);
    let nd = DisplayView { monitors: swapped, ..d };
    assert(display_key(nd) == display_key(d));
    let nl = LayoutView { displays: l.displays.update(g, nd), ..l };
    assert(display_keys(nl.displays) =~= display_keys(l.displays));
}

} // verus!
