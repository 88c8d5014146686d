//! What `normalize` changes in the validation result: positions only, so
//! every rule but the origin rule reports the same problems afterwards.
use vstd::prelude::*;
use crate::connect::{all_reachable, is_path, reachable};
use crate::geometry::{fits_i32, lemma_extremes, lemma_translation_invariant, min_x, min_y, Rect};
use crate::layout::{enabled_of, rect_of, DisplayView, LayoutMode, LayoutView};
use crate::monitor::MonitorView;
use crate::validation::{
    adjacency_problems, assignments_problems_upto, capability_problems, count_primary,
    geometry_problems, global_scale_problems, mirroring_problems, mismatch_problems,
    normalized, layout_origin, normalize_fits, origin_problems, overlap_problems, overlaps_with,
    physical_problems_upto, primary_problems, rects_of, resolution_problems, resolved_upto,
    scales_texts, seen_before, shifted_display, validate_spec, ProblemView, ValidationPolicy,
};

verus! {

/// Two display lists that differ at most in the displays' positions.
pub open spec fn same_settings(a: Seq<DisplayView>, b: Seq<DisplayView>) -> bool {
    &&& a.len() == b.len()
    &&& forall|i: int|
        0 <= i < a.len() ==> {
            &&& (#[trigger] b[i]).monitors == a[i].monitors
            &&& b[i].scale == a[i].scale
            &&& b[i].transform == a[i].transform
            &&& b[i].primary == a[i].primary
        }
}

proof fn lemma_same_prefix(a: Seq<DisplayView>, b: Seq<DisplayView>, n: int)
    requires
        same_settings(a, b),
        0 <= n <= a.len(),
    ensures
        same_settings(a.subrange(0, n), b.subrange(0, n)),
{
    assert forall|i: int| 0 <= i < n implies {
        &&& (#[trigger] b.subrange(0, n)[i]).monitors == a.subrange(0, n)[i].monitors
        &&& b.subrange(0, n)[i].scale == a.subrange(0, n)[i].scale
        &&& b.subrange(0, n)[i].transform == a.subrange(0, n)[i].transform
        &&& b.subrange(0, n)[i].primary == a.subrange(0, n)[i].primary
    } by {
        assert(b.subrange(0, n)[i] == b[i] && a.subrange(0, n)[i] == a[i]);
    }
}

proof fn lemma_enabled_same(a: Seq<DisplayView>, b: Seq<DisplayView>)
    requires
        same_settings(a, b),
    ensures
        enabled_of(a) == enabled_of(b),
    decreases a.len(),
{
    if a.len() > 0 {
        lemma_same_prefix(a, b, a.len() - 1);
        assert(a.drop_last() =~= a.subrange(0, a.len() - 1));
        assert(b.drop_last() =~= b.subrange(0, b.len() - 1));
        lemma_enabled_same(a.drop_last(), b.drop_last());
        assert(b.last() == b[b.len() - 1]);
    }
}

proof fn lemma_assignments_same(
    m: Seq<MonitorView>,
    a: Seq<DisplayView>,
    b: Seq<DisplayView>,
    mode: LayoutMode,
    i: int,
    n: int,
)
    requires
        same_settings(a, b),
        0 <= i < a.len(),
    ensures
        assignments_problems_upto(m, a, mode, i, n) == assignments_problems_upto(m, b, mode, i, n),
    decreases n,
{
    if n > 0 {
        lemma_assignments_same(m, a, b, mode, i, n - 1);
        lemma_same_prefix(a, b, i);
        lemma_enabled_same(a.subrange(0, i), b.subrange(0, i));
        assert(b[i].monitors == a[i].monitors);
        assert(seen_before(a, i, n - 1) == seen_before(b, i, n - 1));
    }
}

proof fn lemma_resolution_same(
    m: Seq<MonitorView>,
    a: Seq<DisplayView>,
    b: Seq<DisplayView>,
    mode: LayoutMode,
    n: int,
)
    requires
        same_settings(a, b),
        n <= a.len(),
    ensures
        resolution_problems(m, a, mode, n) == resolution_problems(m, b, mode, n),
    decreases n,
{
    if n > 0 {
        lemma_resolution_same(m, a, b, mode, n - 1);
        lemma_assignments_same(m, a, b, mode, n - 1, a[n - 1].monitors.len() as int);
        assert(b[n - 1].monitors == a[n - 1].monitors);
    }
}

proof fn lemma_physical_same(a: Seq<DisplayView>, b: Seq<DisplayView>, mode: LayoutMode, n: int)
    requires
        same_settings(a, b),
        n <= a.len(),
    ensures
        physical_problems_upto(a, mode, n) == physical_problems_upto(b, mode, n),
    decreases n,
{
    if n > 0 {
        lemma_physical_same(a, b, mode, n - 1);
        assert(b[n - 1].scale == a[n - 1].scale);
    }
}

proof fn lemma_capability_same(m: Seq<MonitorView>, a: Seq<DisplayView>, b: Seq<DisplayView>, n: int)
    requires
        same_settings(a, b),
        n <= a.len(),
    ensures
        capability_problems(m, a, n) == capability_problems(m, b, n),
    decreases n,
{
    if n > 0 {
        lemma_capability_same(m, a, b, n - 1);
        assert(b[n - 1].monitors == a[n - 1].monitors);
    }
}

proof fn lemma_mismatch_same(m: Seq<MonitorView>, a: Seq<DisplayView>, b: Seq<DisplayView>, n: int)
    requires
        same_settings(a, b),
        n <= a.len(),
    ensures
        mismatch_problems(m, a, n) == mismatch_problems(m, b, n),
    decreases n,
{
    if n > 0 {
        lemma_mismatch_same(m, a, b, n - 1);
        assert(b[n - 1].monitors == a[n - 1].monitors);
    }
}

/// Layouts that differ only in positions have as many primary displays.
pub proof fn lemma_primary_count_same(a: Seq<DisplayView>, b: Seq<DisplayView>)
    requires
        same_settings(a, b),
    ensures
        count_primary(a) == count_primary(b),
    decreases a.len(),
{
    if a.len() > 0 {
        lemma_same_prefix(a, b, a.len() - 1);
        assert(a.drop_last() =~= a.subrange(0, a.len() - 1));
        assert(b.drop_last() =~= b.subrange(0, b.len() - 1));
        lemma_primary_count_same(a.drop_last(), b.drop_last());
        assert(b.last() == b[b.len() - 1]);
    }
}

proof fn lemma_policy_same(a: Seq<DisplayView>, b: Seq<DisplayView>, policy: ValidationPolicy)
    requires
        same_settings(a, b),
    ensures
        mirroring_problems(a, policy) == mirroring_problems(b, policy),
        global_scale_problems(a, policy) == global_scale_problems(b, policy),
{
    if exists|i: int| 0 <= i < a.len() && (#[trigger] a[i]).monitors.len() > 1 {
        let i = choose|i: int| 0 <= i < a.len() && (#[trigger] a[i]).monitors.len() > 1;
        assert(b[i].monitors.len() > 1);
    }
    if exists|i: int| 0 <= i < b.len() && (#[trigger] b[i]).monitors.len() > 1 {
        let i = choose|i: int| 0 <= i < b.len() && (#[trigger] b[i]).monitors.len() > 1;
        assert(a[i].monitors.len() > 1);
    }
    if a.len() > 0 {
        assert(b[0].scale == a[0].scale);
        if exists|i: int|
            0 <= i < a.len() && !crate::units::approx(
                (#[trigger] a[i]).scale as int,
                a[0].scale as int,
                crate::units::SCALE_EPS as int,
            ) {
            let i = choose|i: int|
                0 <= i < a.len() && !crate::units::approx(
                    (#[trigger] a[i]).scale as int,
                    a[0].scale as int,
                    crate::units::SCALE_EPS as int,
                );
            assert(b[i].scale == a[i].scale);
        }
        if exists|i: int|
            0 <= i < b.len() && !crate::units::approx(
                (#[trigger] b[i]).scale as int,
                b[0].scale as int,
                crate::units::SCALE_EPS as int,
            ) {
            let i = choose|i: int|
                0 <= i < b.len() && !crate::units::approx(
                    (#[trigger] b[i]).scale as int,
                    b[0].scale as int,
                    crate::units::SCALE_EPS as int,
                );
            assert(a[i].scale == b[i].scale);
        }
        assert(scales_texts(a) =~= scales_texts(b));
    }
}

/// A rectangle moved by `(-dx, -dy)`.
pub open spec fn shift_rect(r: Rect, dx: int, dy: int) -> Rect {
    Rect { x: (r.x - dx) as i32, y: (r.y - dy) as i32, ..r }
}

/// Resolved rectangles moved by `(-dx, -dy)`.
pub open spec fn shift_resolved(res: Seq<(int, Rect)>, dx: int, dy: int) -> Seq<(int, Rect)> {
    res.map_values(|p: (int, Rect)| (p.0, shift_rect(p.1, dx, dy)))
}

/// Every resolved rectangle sits at the position of its display.
proof fn lemma_resolved_positions(m: Seq<MonitorView>, d: Seq<DisplayView>, mode: LayoutMode, n: int)
    requires
        0 <= n <= d.len(),
    ensures
        forall|k: int|
            0 <= k < resolved_upto(m, d, mode, n).len() ==> {
                let e = #[trigger] resolved_upto(m, d, mode, n)[k];
                &&& 0 <= e.0 < n
                &&& e.1.x == d[e.0].x
                &&& e.1.y == d[e.0].y
            },
    decreases n,
{
    if n > 0 {
        lemma_resolved_positions(m, d, mode, n - 1);
        let prev = resolved_upto(m, d, mode, n - 1);
        assert forall|k: int| 0 <= k < resolved_upto(m, d, mode, n).len() implies {
            let e = #[trigger] resolved_upto(m, d, mode, n)[k];
            &&& 0 <= e.0 < n
            &&& e.1.x == d[e.0].x
            &&& e.1.y == d[e.0].y
        } by {
            if k < prev.len() {
                assert(resolved_upto(m, d, mode, n)[k] == prev[k]);
            }
        }
    }
}

proof fn lemma_resolved_shift(
    m: Seq<MonitorView>,
    a: Seq<DisplayView>,
    b: Seq<DisplayView>,
    mode: LayoutMode,
    dx: int,
    dy: int,
    n: int,
)
    requires
        a.len() == b.len(),
        0 <= n <= a.len(),
        forall|i: int| 0 <= i < a.len() ==> #[trigger] b[i] == shifted_display(a[i], dx, dy),
    ensures
        resolved_upto(m, b, mode, n) == shift_resolved(resolved_upto(m, a, mode, n), dx, dy),
    decreases n,
{
    if n > 0 {
        lemma_resolved_shift(m, a, b, mode, dx, dy, n - 1);
        let pa = resolved_upto(m, a, mode, n - 1);
        assert(b[n - 1] == shifted_display(a[n - 1], dx, dy));
        match rect_of(m, a[n - 1], mode) {
            Some(r) => {
                assert(rect_of(m, b[n - 1], mode) == Some(shift_rect(r, dx, dy)));
                assert(shift_resolved(pa.push((n - 1, r)), dx, dy) =~= shift_resolved(pa, dx, dy).push(
                    (n - 1, shift_rect(r, dx, dy)),
                ));
            },
            None => {
                assert(rect_of(m, b[n - 1], mode) is None);
            },
        }
    }
}

/// The shift keeps every resolved rectangle in the `i32` range.
pub open spec fn shift_fits(res: Seq<(int, Rect)>, dx: int, dy: int) -> bool {
    forall|k: int|
        0 <= k < res.len() ==> fits_i32((#[trigger] res[k]).1.x - dx) && fits_i32(res[k].1.y - dy)
}

proof fn lemma_overlaps_with_shift(res: Seq<(int, Rect)>, dx: int, dy: int, a: int, n: int)
    requires
        shift_fits(res, dx, dy),
        0 <= a,
        n <= res.len(),
    ensures
        overlaps_with(shift_resolved(res, dx, dy), a, n) == overlaps_with(res, a, n),
    decreases n - a,
{
    if n > a + 1 {
        lemma_overlaps_with_shift(res, dx, dy, a, n - 1);
        let s = shift_resolved(res, dx, dy);
        assert(fits_i32(res[a].1.x - dx) && fits_i32(res[a].1.y - dy));
        assert(fits_i32(res[n - 1].1.x - dx) && fits_i32(res[n - 1].1.y - dy));
        lemma_translation_invariant(res[a].1, res[n - 1].1, -dx, -dy);
        assert(s[a] == (res[a].0, shift_rect(res[a].1, dx, dy)));
        assert(s[n - 1] == (res[n - 1].0, shift_rect(res[n - 1].1, dx, dy)));
    }
}

proof fn lemma_overlap_shift(res: Seq<(int, Rect)>, dx: int, dy: int, n: int)
    requires
        shift_fits(res, dx, dy),
        n <= res.len(),
    ensures
        overlap_problems(shift_resolved(res, dx, dy), n) == overlap_problems(res, n),
    decreases n,
{
    if n > 0 {
        lemma_overlap_shift(res, dx, dy, n - 1);
        lemma_overlaps_with_shift(res, dx, dy, n - 1, res.len() as int);
    }
}

proof fn lemma_reachable_shift(rs: Seq<Rect>, ts: Seq<Rect>, dx: int, dy: int)
    requires
        ts.len() == rs.len(),
        forall|k: int| 0 <= k < rs.len() ==> #[trigger] ts[k] == shift_rect(rs[k], dx, dy),
        forall|k: int| 0 <= k < rs.len() ==> fits_i32((#[trigger] rs[k]).x - dx) && fits_i32(rs[k].y - dy),
    ensures
        all_reachable(ts) == all_reachable(rs),
{
    assert forall|p: Seq<int>| #[trigger] is_path(ts, p) == is_path(rs, p) by {
        if p.len() > 0 && forall|k: int| 0 <= k < p.len() ==> 0 <= #[trigger] p[k] < rs.len() {
            assert forall|k: int| 0 <= k < p.len() - 1 implies #[trigger] ts[p[k]].adjacent_spec(ts[p[k + 1]])
                == rs[p[k]].adjacent_spec(rs[p[k + 1]]) by {
                let i = p[k];
                let j = p[k + 1];
                assert(0 <= i < rs.len() && 0 <= j < rs.len());
                assert(fits_i32(rs[i].x - dx) && fits_i32(rs[i].y - dy));
                assert(fits_i32(rs[j].x - dx) && fits_i32(rs[j].y - dy));
                lemma_translation_invariant(rs[i], rs[j], -dx, -dy);
            }
            if is_path(ts, p) {
                assert forall|k: int| 0 <= k < p.len() - 1 implies #[trigger] rs[p[k]].adjacent_spec(
                    rs[p[k + 1]],
                ) by {
                    assert(ts[p[k]].adjacent_spec(ts[p[k + 1]]));
                }
            }
            if is_path(rs, p) {
                assert forall|k: int| 0 <= k < p.len() - 1 implies #[trigger] ts[p[k]].adjacent_spec(
                    ts[p[k + 1]],
                ) by {
                    assert(rs[p[k]].adjacent_spec(rs[p[k + 1]]));
                }
            }
        }
    }
    assert forall|j: int| #[trigger] reachable(ts, j) == reachable(rs, j) by {
        if reachable(ts, j) {
            let p = choose|p: Seq<int>| #[trigger] is_path(ts, p) && p[0] == 0 && p.last() == j;
            assert(is_path(rs, p));
        }
        if reachable(rs, j) {
            let p = choose|p: Seq<int>| #[trigger] is_path(rs, p) && p[0] == 0 && p.last() == j;
            assert(is_path(ts, p));
        }
    }
    if all_reachable(ts) {
        assert forall|j: int| 0 <= j < rs.len() implies #[trigger] reachable(rs, j) by {
            assert(reachable(ts, j));
        }
    }
    if all_reachable(rs) {
        assert forall|j: int| 0 <= j < ts.len() implies #[trigger] reachable(ts, j) by {
            assert(reachable(rs, j));
        }
    }
}

proof fn lemma_min_shift(rs: Seq<Rect>, ts: Seq<Rect>, dx: int, dy: int)
    requires
        rs.len() > 0,
        ts.len() == rs.len(),
        forall|k: int| 0 <= k < rs.len() ==> #[trigger] ts[k] == shift_rect(rs[k], dx, dy),
        forall|k: int| 0 <= k < rs.len() ==> fits_i32((#[trigger] rs[k]).x - dx) && fits_i32(rs[k].y - dy),
    ensures
        min_x(ts) == min_x(rs) - dx,
        min_y(ts) == min_y(rs) - dy,
    decreases rs.len(),
{
    if rs.len() > 1 {
        let ri = rs.drop_last();
        let ti = ts.drop_last();
        assert forall|k: int| 0 <= k < ri.len() implies #[trigger] ti[k] == shift_rect(ri[k], dx, dy) by {
            assert(ti[k] == ts[k] && ri[k] == rs[k]);
        }
        assert forall|k: int| 0 <= k < ri.len() implies fits_i32((#[trigger] ri[k]).x - dx) && fits_i32(
            ri[k].y - dy,
        ) by {
            assert(ri[k] == rs[k]);
        }
        lemma_min_shift(ri, ti, dx, dy);
        assert(ts.last() == ts[ts.len() - 1]);
        assert(rs.last() == rs[rs.len() - 1]);
    } else {
        assert(ts[0] == shift_rect(rs[0], dx, dy));
    }
}

/// The `NotNormalized` report of a layout, if validation gives one.
pub open spec fn origin_report(m: Seq<MonitorView>, l: LayoutView) -> Seq<ProblemView> {
    if l.displays.len() == 0 {
        Seq::empty()
    } else {
        origin_problems(resolved_upto(m, l.displays, l.layout_mode, l.displays.len() as int))
    }
}

/// `normalize` fixes exactly the origin: validating the normalized layout
/// reports the same problems as before, in the same order, without the
/// `NotNormalized` report, and the normalized layout has none.
pub proof fn lemma_normalize_fixes_origin(m: Seq<MonitorView>, l: LayoutView, policy: ValidationPolicy)
    requires
        normalize_fits(m, l),
    ensures
        validate_spec(m, l, policy) == validate_spec(m, normalized(m, l), policy) + origin_report(m, l),
        origin_report(m, normalized(m, l)) == Seq::<ProblemView>::empty(),
        layout_origin(m, normalized(m, l)) == (0int, 0int),
{
    let d = l.displays;
    let l2 = normalized(m, l);
    let d2 = l2.displays;
    let mode = l.layout_mode;
    let (ox, oy) = layout_origin(m, l);
    let n = d.len() as int;
    assert forall|i: int| 0 <= i < d.len() implies #[trigger] d2[i] == shifted_display(d[i], ox, oy) by {}
    assert(same_settings(d, d2));
    if n > 0 {
        lemma_resolution_same(m, d, d2, mode, n);
        lemma_policy_same(d, d2, policy);
        lemma_physical_same(d, d2, mode, n);
        lemma_capability_same(m, d, d2, n);
        lemma_mismatch_same(m, d, d2, n);
        lemma_primary_count_same(d, d2);
        let res = resolved_upto(m, d, mode, n);
        let res2 = resolved_upto(m, d2, mode, n);
        lemma_resolved_shift(m, d, d2, mode, ox, oy, n);
        lemma_resolved_positions(m, d, mode, n);
        assert forall|k: int| 0 <= k < res.len() implies fits_i32((#[trigger] res[k]).1.x - ox) && fits_i32(
            res[k].1.y - oy,
        ) by {
            let e = res[k];
            assert(0 <= e.0 < n);
            assert(d[e.0].x == e.1.x);
        }
        lemma_overlap_shift(res, ox, oy, res.len() as int);
        let rs = rects_of(res);
        let ts = rects_of(res2);
        assert forall|k: int| 0 <= k < rs.len() implies #[trigger] ts[k] == shift_rect(rs[k], ox, oy) by {
            assert(res2[k] == (res[k].0, shift_rect(res[k].1, ox, oy)));
        }
        assert forall|k: int| 0 <= k < rs.len() implies fits_i32((#[trigger] rs[k]).x - ox) && fits_i32(
            rs[k].y - oy,
        ) by {
            assert(rs[k] == res[k].1);
        }
        lemma_reachable_shift(rs, ts, ox, oy);
        if rs.len() > 0 {
            lemma_min_shift(rs, ts, ox, oy);
        }
        assert(ts.len() == rs.len());
        assert(origin_problems(res2) == Seq::<ProblemView>::empty());
        assert(geometry_problems(m, d, mode) == overlap_problems(res, res.len() as int)
            + adjacency_problems(res) + origin_problems(res));
        assert(geometry_problems(m, d2, mode) == overlap_problems(res, res.len() as int)
            + adjacency_problems(res));
        assert(primary_problems(d) == primary_problems(d2));
        assert(validate_spec(m, l, policy) =~= validate_spec(m, l2, policy) + origin_report(m, l));
    } else {
        assert(validate_spec(m, l, policy) =~= validate_spec(m, l2, policy) + origin_report(m, l));
    }
}

/// `normalize` moves every display by one common offset, keeping all other
/// settings, leaves the layout's origin at `(0, 0)`, and normalizing again
/// changes nothing. A layout already at the origin (among them one where no
/// display resolves to a rectangle) is left as it is.
pub proof fn lemma_normalize_shift_idempotent(m: Seq<MonitorView>, l: LayoutView)
    requires
        normalize_fits(m, l),
    ensures
        layout_origin(m, l) == (0int, 0int) ==> normalized(m, l) == l,
        ({
            let (dx, dy) = layout_origin(m, l);
            let n = normalized(m, l);
            &&& n.layout_mode == l.layout_mode
            &&& n.displays.len() == l.displays.len()
            &&& forall|i: int|
                0 <= i < l.displays.len() ==> #[trigger] n.displays[i] == DisplayView {
                    x: (l.displays[i].x - dx) as i32,
                    y: (l.displays[i].y - dy) as i32,
                    ..l.displays[i]
                } && n.displays[i].x == l.displays[i].x - dx && n.displays[i].y == l.displays[i].y - dy
        }),
        layout_origin(m, normalized(m, l)) == (0int, 0int),
        normalized(m, normalized(m, l)) == normalized(m, l),
{
    lemma_normalize_fixes_origin(m, l, ValidationPolicy { global_scale_required: false, supports_mirroring: true });
    let n = normalized(m, l);
    let n2 = normalized(m, n);
    assert forall|i: int| 0 <= i < n.displays.len() implies #[trigger] n2.displays[i] == n.displays[i] by {
        assert(n2.displays[i] == shifted_display(n.displays[i], 0, 0));
    }
    assert(n2.displays =~= n.displays);
    if layout_origin(m, l) == (0int, 0int) {
        assert forall|i: int| 0 <= i < l.displays.len() implies #[trigger] n.displays[i] == l.displays[i] by {
            assert(n.displays[i] == shifted_display(l.displays[i], 0, 0));
        }
        assert(n.displays =~= l.displays);
    }
}

} // verus!
