//! What validation reports about the primary display and mirroring: each
//! of those reports comes from one rule only, so it appears exactly when
//! that rule's condition holds.
use vstd::prelude::*;
use crate::layout::{enabled_of, rect_of, AssignmentView, DisplayView, LayoutMode, LayoutView};
use crate::monitor::MonitorView;
use crate::geometry::Rect;
use crate::validation::{
    adjacency_problems, assignment_problems, assignments_problems_upto, capability_members,
    capability_problem, capability_problems, count_primary, display_problems, geometry_problems,
    global_scale_problems, mirroring_problems, mismatch_problems, origin_problems, overlap_problems,
    overlaps_with, physical_problems_upto, primary_problems, resolution_problems, resolved_upto,
    seen_before, validate_spec, ProblemView, ValidationPolicy,
};

verus! {

/// Neither a primary-display report, nor the mirroring report, nor the
/// origin report.
pub open spec fn other_kind(p: ProblemView) -> bool {
    !(p is MissingPrimary) && !(p is MultiplePrimary) && !(p is MirroringUnsupported) && !(p is NotNormalized)
        && !(p is NoActiveDisplays)
}

/// Not a primary-display or mirroring report.
pub open spec fn not_primary_or_mirroring(p: ProblemView) -> bool {
    !(p is MissingPrimary) && !(p is MultiplePrimary) && !(p is MirroringUnsupported)
}

/// Every report in `s` is of another kind.
pub open spec fn all_other(s: Seq<ProblemView>) -> bool {
    forall|k: int| 0 <= k < s.len() ==> other_kind(#[trigger] s[k])
}

proof fn lemma_all_other_add(a: Seq<ProblemView>, b: Seq<ProblemView>)
    requires
        all_other(a),
        all_other(b),
    ensures
        all_other(a + b),
{
    assert forall|k: int| 0 <= k < (a + b).len() implies other_kind(#[trigger] (a + b)[k]) by {
        if k < a.len() {
            assert((a + b)[k] == a[k]);
        } else {
            assert((a + b)[k] == b[k - a.len()]);
        }
    }
}

proof fn lemma_assignments_other(m: Seq<MonitorView>, d: Seq<DisplayView>, mode: LayoutMode, i: int, n: int)
    ensures
        all_other(assignments_problems_upto(m, d, mode, i, n)),
    decreases n,
{
    if n > 0 {
        lemma_assignments_other(m, d, mode, i, n - 1);
        let a = assignment_problems(m, d, mode, i, n - 1);
        assert(all_other(a));
        lemma_all_other_add(assignments_problems_upto(m, d, mode, i, n - 1), a);
    }
}

proof fn lemma_resolution_other(m: Seq<MonitorView>, d: Seq<DisplayView>, mode: LayoutMode, n: int)
    ensures
        all_other(resolution_problems(m, d, mode, n)),
    decreases n,
{
    if n > 0 {
        lemma_resolution_other(m, d, mode, n - 1);
        let i = n - 1;
        let e = if d[i].monitors.len() == 0 { seq![ProblemView::EmptyGroup] } else { Seq::empty() };
        let s = if d[i].scale <= 0 { seq![ProblemView::InvalidScale { scale: d[i].scale }] } else { Seq::empty() };
        assert(all_other(e));
        assert(all_other(s));
        lemma_all_other_add(e, s);
        lemma_assignments_other(m, d, mode, i, d[i].monitors.len() as int);
        lemma_all_other_add(e + s, assignments_problems_upto(m, d, mode, i, d[i].monitors.len() as int));
        assert(display_problems(m, d, mode, i) == e + s + assignments_problems_upto(
            m,
            d,
            mode,
            i,
            d[i].monitors.len() as int,
        ));
        lemma_all_other_add(resolution_problems(m, d, mode, n - 1), display_problems(m, d, mode, i));
    }
}

proof fn lemma_physical_other(d: Seq<DisplayView>, mode: LayoutMode, n: int)
    ensures
        all_other(physical_problems_upto(d, mode, n)),
    decreases n,
{
    if n > 0 && mode == LayoutMode::Physical {
        lemma_physical_other(d, mode, n - 1);
        let prev = physical_problems_upto(d, mode, n - 1);
        let last = physical_problems_upto(d, mode, n).subrange(prev.len() as int, physical_problems_upto(d, mode, n).len() as int);
        assert(physical_problems_upto(d, mode, n) == prev + last);
        assert(all_other(last));
        lemma_all_other_add(prev, last);
    }
}

proof fn lemma_capability_members_other(m: Seq<MonitorView>, members: Seq<crate::layout::AssignmentView>, n: int)
    ensures
        all_other(capability_members(m, members, n)),
    decreases n,
{
    if n > 0 {
        lemma_capability_members_other(m, members, n - 1);
        let c = capability_problem(m, members[n - 1]);
        assert(all_other(c));
        lemma_all_other_add(capability_members(m, members, n - 1), c);
    }
}

proof fn lemma_capability_other(m: Seq<MonitorView>, d: Seq<DisplayView>, n: int)
    ensures
        all_other(capability_problems(m, d, n)),
    decreases n,
{
    if n > 0 {
        lemma_capability_other(m, d, n - 1);
        lemma_capability_members_other(m, d[n - 1].monitors, d[n - 1].monitors.len() as int);
        lemma_all_other_add(
            capability_problems(m, d, n - 1),
            capability_members(m, d[n - 1].monitors, d[n - 1].monitors.len() as int),
        );
    }
}

proof fn lemma_mismatch_other(m: Seq<MonitorView>, d: Seq<DisplayView>, n: int)
    ensures
        all_other(mismatch_problems(m, d, n)),
    decreases n,
{
    if n > 0 {
        lemma_mismatch_other(m, d, n - 1);
        let prev = mismatch_problems(m, d, n - 1);
        let all = mismatch_problems(m, d, n);
        let last = all.subrange(prev.len() as int, all.len() as int);
        assert(all == prev + last);
        assert(all_other(last));
        lemma_all_other_add(prev, last);
    }
}

proof fn lemma_overlaps_with_other(res: Seq<(int, Rect)>, a: int, n: int)
    ensures
        all_other(overlaps_with(res, a, n)),
    decreases n - a,
{
    if n > a + 1 {
        lemma_overlaps_with_other(res, a, n - 1);
        let prev = overlaps_with(res, a, n - 1);
        let all = overlaps_with(res, a, n);
        let last = all.subrange(prev.len() as int, all.len() as int);
        assert(all == prev + last);
        assert(all_other(last));
        lemma_all_other_add(prev, last);
    }
}

proof fn lemma_overlap_other(res: Seq<(int, Rect)>, n: int)
    ensures
        all_other(overlap_problems(res, n)),
    decreases n,
{
    if n > 0 {
        lemma_overlap_other(res, n - 1);
        lemma_overlaps_with_other(res, n - 1, res.len() as int);
        lemma_all_other_add(overlap_problems(res, n - 1), overlaps_with(res, n - 1, res.len() as int));
    }
}

/// Of another kind, and not a repeated-monitor report either.
pub open spec fn narrow_kind(p: ProblemView) -> bool {
    other_kind(p) && !(p is MonitorInMultipleGroups)
}

/// Every report in `s` is of a narrow kind.
pub open spec fn all_narrow(s: Seq<ProblemView>) -> bool {
    forall|k: int| 0 <= k < s.len() ==> narrow_kind(#[trigger] s[k])
}

proof fn lemma_all_narrow_add(a: Seq<ProblemView>, b: Seq<ProblemView>)
    requires
        all_narrow(a),
        all_narrow(b),
    ensures
        all_narrow(a + b),
{
    assert forall|k: int| 0 <= k < (a + b).len() implies narrow_kind(#[trigger] (a + b)[k]) by {
        if k < a.len() {
            assert((a + b)[k] == a[k]);
        } else {
            assert((a + b)[k] == b[k - a.len()]);
        }
    }
}

proof fn lemma_physical_narrow(d: Seq<DisplayView>, mode: LayoutMode, n: int)
    ensures
        all_narrow(physical_problems_upto(d, mode, n)),
    decreases n,
{
    if n > 0 && mode == LayoutMode::Physical {
        lemma_physical_narrow(d, mode, n - 1);
        let prev = physical_problems_upto(d, mode, n - 1);
        let last = physical_problems_upto(d, mode, n).subrange(prev.len() as int, physical_problems_upto(d, mode, n).len() as int);
        assert(physical_problems_upto(d, mode, n) == prev + last);
        assert(all_narrow(last));
        lemma_all_narrow_add(prev, last);
    }
}

proof fn lemma_capability_members_narrow(m: Seq<MonitorView>, members: Seq<crate::layout::AssignmentView>, n: int)
    ensures
        all_narrow(capability_members(m, members, n)),
    decreases n,
{
    if n > 0 {
        lemma_capability_members_narrow(m, members, n - 1);
        let c = capability_problem(m, members[n - 1]);
        assert(all_narrow(c));
        lemma_all_narrow_add(capability_members(m, members, n - 1), c);
    }
}

proof fn lemma_capability_narrow(m: Seq<MonitorView>, d: Seq<DisplayView>, n: int)
    ensures
        all_narrow(capability_problems(m, d, n)),
    decreases n,
{
    if n > 0 {
        lemma_capability_narrow(m, d, n - 1);
        lemma_capability_members_narrow(m, d[n - 1].monitors, d[n - 1].monitors.len() as int);
        lemma_all_narrow_add(
            capability_problems(m, d, n - 1),
            capability_members(m, d[n - 1].monitors, d[n - 1].monitors.len() as int),
        );
    }
}

proof fn lemma_mismatch_narrow(m: Seq<MonitorView>, d: Seq<DisplayView>, n: int)
    ensures
        all_narrow(mismatch_problems(m, d, n)),
    decreases n,
{
    if n > 0 {
        lemma_mismatch_narrow(m, d, n - 1);
        let prev = mismatch_problems(m, d, n - 1);
        let all = mismatch_problems(m, d, n);
        let last = all.subrange(prev.len() as int, all.len() as int);
        assert(all == prev + last);
        assert(all_narrow(last));
        lemma_all_narrow_add(prev, last);
    }
}

proof fn lemma_overlaps_with_narrow(res: Seq<(int, Rect)>, a: int, n: int)
    ensures
        all_narrow(overlaps_with(res, a, n)),
    decreases n - a,
{
    if n > a + 1 {
        lemma_overlaps_with_narrow(res, a, n - 1);
        let prev = overlaps_with(res, a, n - 1);
        let all = overlaps_with(res, a, n);
        let last = all.subrange(prev.len() as int, all.len() as int);
        assert(all == prev + last);
        assert(all_narrow(last));
        lemma_all_narrow_add(prev, last);
    }
}

proof fn lemma_overlap_narrow(res: Seq<(int, Rect)>, n: int)
    ensures
        all_narrow(overlap_problems(res, n)),
    decreases n,
{
    if n > 0 {
        lemma_overlap_narrow(res, n - 1);
        lemma_overlaps_with_narrow(res, n - 1, res.len() as int);
        lemma_all_narrow_add(overlap_problems(res, n - 1), overlaps_with(res, n - 1, res.len() as int));
    }
}

/// Number of primary displays is zero exactly when none is primary, and at
/// least two exactly when two different displays are.
pub proof fn lemma_count_primary(d: Seq<DisplayView>)
    ensures
        count_primary(d) == 0 <==> forall|i: int| 0 <= i < d.len() ==> !(#[trigger] d[i]).primary,
        count_primary(d) >= 2 <==> exists|i: int, j: int|
            0 <= i < j < d.len() && (#[trigger] d[i]).primary && (#[trigger] d[j]).primary,
    decreases d.len(),
{
    if d.len() > 0 {
        let p = d.drop_last();
        lemma_count_primary(p);
        assert forall|i: int| 0 <= i < p.len() implies #[trigger] p[i] == d[i] by {}
        if d.last().primary {
            if count_primary(p) >= 1 {
                if forall|i: int| 0 <= i < p.len() ==> !(#[trigger] p[i]).primary {
                } else {
                    let i = choose|i: int| 0 <= i < p.len() && (#[trigger] p[i]).primary;
                    assert(d[i].primary && d[d.len() - 1].primary);
                }
            } else {
                if exists|i: int, j: int| 0 <= i < j < d.len() && (#[trigger] d[i]).primary && (#[trigger] d[j]).primary {
                    let (i, j) = choose|i: int, j: int|
                        0 <= i < j < d.len() && (#[trigger] d[i]).primary && (#[trigger] d[j]).primary;
                    assert(p[i].primary);
                }
            }
        } else {
            if count_primary(p) == 0 {
                assert forall|i: int| 0 <= i < d.len() implies !(#[trigger] d[i]).primary by {
                    if i < p.len() {
                        assert(p[i] == d[i]);
                    }
                }
            }
            if forall|i: int| 0 <= i < d.len() ==> !(#[trigger] d[i]).primary {
                assert forall|i: int| 0 <= i < p.len() implies !(#[trigger] p[i]).primary by {
                    assert(p[i] == d[i]);
                }
            }
            if exists|i: int, j: int| 0 <= i < j < d.len() && (#[trigger] d[i]).primary && (#[trigger] d[j]).primary {
                let (i, j) = choose|i: int, j: int|
                    0 <= i < j < d.len() && (#[trigger] d[i]).primary && (#[trigger] d[j]).primary;
                assert(p[i].primary && p[j].primary);
            }
        }
    }
}

/// An empty layout gets exactly the `NoActiveDisplays` report. Otherwise
/// `MissingPrimary` is reported exactly when no display is primary,
/// `MultiplePrimary` exactly when two are, and `MirroringUnsupported`
/// exactly when mirroring is unsupported and some display mirrors.
#[verifier::spinoff_prover]
#[verifier::rlimit(60)]
pub proof fn lemma_validate_primary_mirroring(m: Seq<MonitorView>, l: LayoutView, policy: ValidationPolicy)
    ensures
        l.displays.len() == 0 ==> validate_spec(m, l, policy) == seq![ProblemView::NoActiveDisplays],
        l.displays.len() > 0 ==> {
            let p = validate_spec(m, l, policy);
            let d = l.displays;
            &&& (p.contains(ProblemView::MissingPrimary) <==> forall|i: int|
                0 <= i < d.len() ==> !(#[trigger] d[i]).primary)
            &&& (p.contains(ProblemView::MultiplePrimary) <==> exists|i: int, j: int|
                0 <= i < j < d.len() && (#[trigger] d[i]).primary && (#[trigger] d[j]).primary)
            &&& (p.contains(ProblemView::MirroringUnsupported) <==> !policy.supports_mirroring && exists|i: int|
                0 <= i < d.len() && (#[trigger] d[i]).monitors.len() > 1)
        },
{
    let d = l.displays;
    if d.len() > 0 {
        let mode = l.layout_mode;
        let n = d.len() as int;
        let a = resolution_problems(m, d, mode, n);
        let b = mirroring_problems(d, policy);
        let c = global_scale_problems(d, policy) + physical_problems_upto(d, mode, n) + capability_problems(m, d, n)
            + mismatch_problems(m, d, n);
        let pp = primary_problems(d);
        let g = geometry_problems(m, d, mode);
        lemma_resolution_other(m, d, mode, n);
        assert(all_other(global_scale_problems(d, policy)));
        lemma_physical_other(d, mode, n);
        lemma_capability_other(m, d, n);
        lemma_mismatch_other(m, d, n);
        lemma_all_other_add(global_scale_problems(d, policy), physical_problems_upto(d, mode, n));
        lemma_all_other_add(
            global_scale_problems(d, policy) + physical_problems_upto(d, mode, n),
            capability_problems(m, d, n),
        );
        lemma_all_other_add(
            global_scale_problems(d, policy) + physical_problems_upto(d, mode, n) + capability_problems(m, d, n),
            mismatch_problems(m, d, n),
        );
        let res = resolved_upto(m, d, mode, n);
        lemma_overlap_other(res, res.len() as int);
        assert(all_other(adjacency_problems(res)));
        lemma_all_other_add(overlap_problems(res, res.len() as int), adjacency_problems(res));
        let og = origin_problems(res);
        assert(forall|k: int| 0 <= k < og.len() ==> not_primary_or_mirroring(#[trigger] og[k]));
        lemma_count_primary(d);
        assert(validate_spec(m, l, policy) == a + b + c + pp + g);
        assert(g == overlap_problems(res, res.len() as int) + adjacency_problems(res) + og);
        lemma_concat_reports(a, b, c, pp, overlap_problems(res, res.len() as int) + adjacency_problems(res), og);
        if count_primary(d) == 0 {
            assert(pp[0] == ProblemView::MissingPrimary);
        }
        if count_primary(d) >= 2 {
            assert(pp[0] == ProblemView::MultiplePrimary);
        }
        if b.len() > 0 {
            assert(b[0] == ProblemView::MirroringUnsupported);
        }
    }
}

/// A report list made of other kinds, then mirroring reports, then other
/// kinds, then primary reports, then other kinds, holds a primary report
/// exactly when its primary part does, and the mirroring report exactly
/// when its mirroring part does.
proof fn lemma_concat_reports(
    a: Seq<ProblemView>,
    b: Seq<ProblemView>,
    c: Seq<ProblemView>,
    pp: Seq<ProblemView>,
    g0: Seq<ProblemView>,
    o: Seq<ProblemView>,
)
    requires
        all_other(a),
        all_other(c),
        all_other(g0),
        forall|k: int| 0 <= k < o.len() ==> not_primary_or_mirroring(#[trigger] o[k]),
        forall|k: int| 0 <= k < b.len() ==> #[trigger] b[k] == ProblemView::MirroringUnsupported,
        forall|k: int|
            0 <= k < pp.len() ==> #[trigger] pp[k] == ProblemView::MissingPrimary || pp[k] == ProblemView::MultiplePrimary,
    ensures
        (a + b + c + pp + (g0 + o)).contains(ProblemView::MissingPrimary) <==> pp.contains(ProblemView::MissingPrimary),
        (a + b + c + pp + (g0 + o)).contains(ProblemView::MultiplePrimary) <==> pp.contains(ProblemView::MultiplePrimary),
        (a + b + c + pp + (g0 + o)).contains(ProblemView::MirroringUnsupported) <==> b.len() > 0,
{
    let g = g0 + o;
    assert forall|k: int| 0 <= k < g.len() implies not_primary_or_mirroring(#[trigger] g[k]) by {
        if k < g0.len() {
            assert(g[k] == g0[k]);
            assert(other_kind(g0[k]));
        } else {
            assert(g[k] == o[k - g0.len()]);
        }
    }
    let p = a + b + c + pp + g;
    let la = a.len() as int;
    let lb = b.len() as int;
    let lc = c.len() as int;
    let lp = pp.len() as int;
    assert forall|k: int| 0 <= k < p.len() implies #[trigger] p[k] == if k < la {
        a[k]
    } else if k < la + lb {
        b[k - la]
    } else if k < la + lb + lc {
        c[k - la - lb]
    } else if k < la + lb + lc + lp {
        pp[k - la - lb - lc]
    } else {
        g[k - la - lb - lc - lp]
    } by {}
    if pp.contains(ProblemView::MissingPrimary) {
        let k = choose|k: int| 0 <= k < pp.len() && pp[k] == ProblemView::MissingPrimary;
        assert(p[la + lb + lc + k] == pp[k]);
    }
    if pp.contains(ProblemView::MultiplePrimary) {
        let k = choose|k: int| 0 <= k < pp.len() && pp[k] == ProblemView::MultiplePrimary;
        assert(p[la + lb + lc + k] == pp[k]);
    }
    if b.len() > 0 {
        assert(p[la] == b[0]);
    }
    if p.contains(ProblemView::MissingPrimary) {
        let k = choose|k: int| 0 <= k < p.len() && p[k] == ProblemView::MissingPrimary;
        if k < la {
            assert(other_kind(a[k]));
        } else if k < la + lb {
        } else if k < la + lb + lc {
            assert(other_kind(c[k - la - lb]));
        } else if k < la + lb + lc + lp {
            assert(pp[k - la - lb - lc] == ProblemView::MissingPrimary);
        } else {
            assert(not_primary_or_mirroring(g[k - la - lb - lc - lp]));
        }
    }
    if p.contains(ProblemView::MultiplePrimary) {
        let k = choose|k: int| 0 <= k < p.len() && p[k] == ProblemView::MultiplePrimary;
        if k < la {
            assert(other_kind(a[k]));
        } else if k < la + lb {
        } else if k < la + lb + lc {
            assert(other_kind(c[k - la - lb]));
        } else if k < la + lb + lc + lp {
            assert(pp[k - la - lb - lc] == ProblemView::MultiplePrimary);
        } else {
            assert(not_primary_or_mirroring(g[k - la - lb - lc - lp]));
        }
    }
    if p.contains(ProblemView::MirroringUnsupported) {
        let k = choose|k: int| 0 <= k < p.len() && p[k] == ProblemView::MirroringUnsupported;
        if k < la {
            assert(other_kind(a[k]));
        } else if k < la + lb {
        } else if k < la + lb + lc {
            assert(other_kind(c[k - la - lb]));
        } else if k < la + lb + lc + lp {
            assert(pp[k - la - lb - lc] != ProblemView::MirroringUnsupported);
        } else {
            assert(not_primary_or_mirroring(g[k - la - lb - lc - lp]));
        }
    }
}

/// Only the origin rule reports `NotNormalized`.
#[verifier::spinoff_prover]
#[verifier::rlimit(60)]
pub proof fn lemma_not_normalized_only_from_origin(m: Seq<MonitorView>, l: LayoutView, policy: ValidationPolicy)
    requires
        l.displays.len() > 0,
    ensures
        forall|k: int|
            0 <= k < validate_spec(m, l, policy).len() && (#[trigger] validate_spec(m, l, policy)[k]) is NotNormalized
                ==> crate::normalization::origin_report(m, l).len() > 0,
{
    let d = l.displays;
    let mode = l.layout_mode;
    let n = d.len() as int;
    let a = resolution_problems(m, d, mode, n);
    let b = mirroring_problems(d, policy);
    let c = global_scale_problems(d, policy) + physical_problems_upto(d, mode, n) + capability_problems(m, d, n)
        + mismatch_problems(m, d, n);
    let pp = primary_problems(d);
    let res = resolved_upto(m, d, mode, n);
    let g0 = overlap_problems(res, res.len() as int) + adjacency_problems(res);
    let og = origin_problems(res);
    lemma_resolution_other(m, d, mode, n);
    assert(all_other(global_scale_problems(d, policy)));
    lemma_physical_other(d, mode, n);
    lemma_capability_other(m, d, n);
    lemma_mismatch_other(m, d, n);
    lemma_all_other_add(global_scale_problems(d, policy), physical_problems_upto(d, mode, n));
    lemma_all_other_add(global_scale_problems(d, policy) + physical_problems_upto(d, mode, n), capability_problems(m, d, n));
    lemma_all_other_add(
        global_scale_problems(d, policy) + physical_problems_upto(d, mode, n) + capability_problems(m, d, n),
        mismatch_problems(m, d, n),
    );
    lemma_overlap_other(res, res.len() as int);
    assert(all_other(adjacency_problems(res)));
    lemma_all_other_add(overlap_problems(res, res.len() as int), adjacency_problems(res));
    let p = validate_spec(m, l, policy);
    assert(p == a + b + c + pp + (g0 + og));
    assert(og == crate::normalization::origin_report(m, l));
    let la = a.len() as int;
    let lb = b.len() as int;
    let lc = c.len() as int;
    let lp = pp.len() as int;
    let lg = g0.len() as int;
    assert forall|k: int| 0 <= k < p.len() && (#[trigger] p[k]) is NotNormalized implies og.len() > 0 by {
        if k < la {
            assert(p[k] == a[k]);
            assert(other_kind(a[k]));
        } else if k < la + lb {
            assert(p[k] == b[k - la]);
        } else if k < la + lb + lc {
            assert(p[k] == c[k - la - lb]);
            assert(other_kind(c[k - la - lb]));
        } else if k < la + lb + lc + lp {
            assert(p[k] == pp[k - la - lb - lc]);
        } else if k < la + lb + lc + lp + lg {
            assert(p[k] == g0[k - la - lb - lc - lp]);
            assert(other_kind(g0[k - la - lb - lc - lp]));
        }
    }
}

/// A layout with displays never gets the `NoActiveDisplays` report, so
/// validation gives exactly that report if and only if the layout is empty.
#[verifier::spinoff_prover]
#[verifier::rlimit(60)]
pub proof fn lemma_no_active_displays_iff_empty(m: Seq<MonitorView>, l: LayoutView, policy: ValidationPolicy)
    ensures
        l.displays.len() > 0 ==> !validate_spec(m, l, policy).contains(ProblemView::NoActiveDisplays),
        (validate_spec(m, l, policy) == seq![ProblemView::NoActiveDisplays]) <==> l.displays.len() == 0,
{
    let d = l.displays;
    if d.len() == 0 {
        return;
    }
    let mode = l.layout_mode;
    let n = d.len() as int;
    let a = resolution_problems(m, d, mode, n);
    let b = mirroring_problems(d, policy);
    let c = global_scale_problems(d, policy) + physical_problems_upto(d, mode, n) + capability_problems(m, d, n)
        + mismatch_problems(m, d, n);
    let pp = primary_problems(d);
    let res = resolved_upto(m, d, mode, n);
    let g0 = overlap_problems(res, res.len() as int) + adjacency_problems(res);
    let og = origin_problems(res);
    lemma_resolution_other(m, d, mode, n);
    assert(all_other(global_scale_problems(d, policy)));
    lemma_physical_other(d, mode, n);
    lemma_capability_other(m, d, n);
    lemma_mismatch_other(m, d, n);
    lemma_all_other_add(global_scale_problems(d, policy), physical_problems_upto(d, mode, n));
    lemma_all_other_add(global_scale_problems(d, policy) + physical_problems_upto(d, mode, n), capability_problems(m, d, n));
    lemma_all_other_add(
        global_scale_problems(d, policy) + physical_problems_upto(d, mode, n) + capability_problems(m, d, n),
        mismatch_problems(m, d, n),
    );
    lemma_overlap_other(res, res.len() as int);
    assert(all_other(adjacency_problems(res)));
    lemma_all_other_add(overlap_problems(res, res.len() as int), adjacency_problems(res));
    let p = validate_spec(m, l, policy);
    assert(p == a + b + c + pp + (g0 + og));
    assert(og == crate::normalization::origin_report(m, l));
    let la = a.len() as int;
    let lb = b.len() as int;
    let lc = c.len() as int;
    let lp = pp.len() as int;
    let lg = g0.len() as int;
    assert forall|k: int| 0 <= k < p.len() implies !(#[trigger] p[k] is NoActiveDisplays) by {
        if k < la {
            assert(p[k] == a[k]);
            assert(other_kind(a[k]));
        } else if k < la + lb {
            assert(p[k] == b[k - la]);
        } else if k < la + lb + lc {
            assert(p[k] == c[k - la - lb]);
            assert(other_kind(c[k - la - lb]));
        } else if k < la + lb + lc + lp {
            assert(p[k] == pp[k - la - lb - lc]);
        } else if k < la + lb + lc + lp + lg {
            assert(p[k] == g0[k - la - lb - lc - lp]);
            assert(other_kind(g0[k - la - lb - lc - lp]));
        } else {
            assert(p[k] == og[k - la - lb - lc - lp - lg]);
        }
    }
    if p.contains(ProblemView::NoActiveDisplays) {
        let k = choose|k: int| 0 <= k < p.len() && p[k] == ProblemView::NoActiveDisplays;
        assert(!(p[k] is NoActiveDisplays));
    }
    if p == seq![ProblemView::NoActiveDisplays] {
        assert(p[0] == ProblemView::NoActiveDisplays);
    }
}

/// The report that connector `c` is in more than one group.
pub open spec fn dup_report(c: Seq<char>) -> ProblemView {
    ProblemView::MonitorInMultipleGroups { connector: c }
}

/// Assignment `j` of display `i` is on connector `c`, which an earlier
/// assignment already uses.
pub open spec fn repeats_at(d: Seq<DisplayView>, i: int, j: int, c: Seq<char>) -> bool {
    &&& 0 <= i < d.len()
    &&& 0 <= j < d[i].monitors.len()
    &&& d[i].monitors[j].connector == c
    &&& seen_before(d, i, j).contains(c)
}

proof fn lemma_contains_add(a: Seq<ProblemView>, b: Seq<ProblemView>, x: ProblemView)
    ensures
        (a + b).contains(x) <==> a.contains(x) || b.contains(x),
{
    if (a + b).contains(x) {
        let k = choose|k: int| 0 <= k < (a + b).len() && (a + b)[k] == x;
        if k < a.len() {
            assert(a[k] == x);
        } else {
            assert(b[k - a.len()] == x);
        }
    }
    if a.contains(x) {
        let k = choose|k: int| 0 <= k < a.len() && a[k] == x;
        assert((a + b)[k] == x);
    }
    if b.contains(x) {
        let k = choose|k: int| 0 <= k < b.len() && b[k] == x;
        assert((a + b)[a.len() + k] == x);
    }
}

proof fn lemma_narrow_no_dup(s: Seq<ProblemView>, c: Seq<char>)
    requires
        all_narrow(s),
    ensures
        !s.contains(dup_report(c)),
{
    if s.contains(dup_report(c)) {
        let k = choose|k: int| 0 <= k < s.len() && s[k] == dup_report(c);
        assert(narrow_kind(s[k]));
    }
}

proof fn lemma_assignments_dup(m: Seq<MonitorView>, d: Seq<DisplayView>, mode: LayoutMode, i: int, n: int, c: Seq<char>)
    requires
        0 <= i < d.len(),
        0 <= n <= d[i].monitors.len(),
    ensures
        assignments_problems_upto(m, d, mode, i, n).contains(dup_report(c)) <==> exists|j: int|
            0 <= j < n && #[trigger] repeats_at(d, i, j, c),
    decreases n,
{
    if n > 0 {
        lemma_assignments_dup(m, d, mode, i, n - 1, c);
        let j = n - 1;
        let ap = assignment_problems(m, d, mode, i, j);
        let a = d[i].monitors[j];
        let dup = if seen_before(d, i, j).contains(a.connector) {
            seq![ProblemView::MonitorInMultipleGroups { connector: a.connector }]
        } else {
            Seq::empty()
        };
        let res = ap.subrange(dup.len() as int, ap.len() as int);
        assert(ap == dup + res);
        assert(!res.contains(dup_report(c))) by {
            if res.contains(dup_report(c)) {
                let k = choose|k: int| 0 <= k < res.len() && res[k] == dup_report(c);
                assert(res[k] is MonitorInMultipleGroups);
            }
        }
        lemma_contains_add(dup, res, dup_report(c));
        if dup.contains(dup_report(c)) {
            assert(dup[0] == dup_report(c));
            assert(repeats_at(d, i, j, c));
        }
        lemma_contains_add(assignments_problems_upto(m, d, mode, i, n - 1), ap, dup_report(c));
        if exists|jj: int| 0 <= jj < n - 1 && #[trigger] repeats_at(d, i, jj, c) {
            let jj = choose|jj: int| 0 <= jj < n - 1 && #[trigger] repeats_at(d, i, jj, c);
            assert(0 <= jj < n && repeats_at(d, i, jj, c));
        }
        if exists|jj: int| 0 <= jj < n && #[trigger] repeats_at(d, i, jj, c) {
            let jj = choose|jj: int| 0 <= jj < n && #[trigger] repeats_at(d, i, jj, c);
            if jj == j {
                assert(dup.contains(dup_report(c))) by {
                    assert(dup[0] == dup_report(c));
                }
            }
        }
    }
}

proof fn lemma_resolution_dup(m: Seq<MonitorView>, d: Seq<DisplayView>, mode: LayoutMode, n: int, c: Seq<char>)
    requires
        0 <= n <= d.len(),
    ensures
        resolution_problems(m, d, mode, n).contains(dup_report(c)) <==> exists|i: int, j: int|
            0 <= i < n && #[trigger] repeats_at(d, i, j, c),
    decreases n,
{
    if n > 0 {
        lemma_resolution_dup(m, d, mode, n - 1, c);
        let i = n - 1;
        let e = if d[i].monitors.len() == 0 { seq![ProblemView::EmptyGroup] } else { Seq::empty() };
        let sc = if d[i].scale <= 0 { seq![ProblemView::InvalidScale { scale: d[i].scale }] } else { Seq::empty() };
        let asg = assignments_problems_upto(m, d, mode, i, d[i].monitors.len() as int);
        assert(display_problems(m, d, mode, i) == e + sc + asg);
        assert(!e.contains(dup_report(c)));
        assert(!sc.contains(dup_report(c)));
        lemma_contains_add(e, sc, dup_report(c));
        lemma_contains_add(e + sc, asg, dup_report(c));
        lemma_assignments_dup(m, d, mode, i, d[i].monitors.len() as int, c);
        lemma_contains_add(resolution_problems(m, d, mode, n - 1), display_problems(m, d, mode, i), dup_report(c));
        if exists|ii: int, j: int| 0 <= ii < n && #[trigger] repeats_at(d, ii, j, c) {
            let (ii, j) = choose|ii: int, j: int| 0 <= ii < n && #[trigger] repeats_at(d, ii, j, c);
            if ii == i {
                assert(0 <= j < d[i].monitors.len() && repeats_at(d, i, j, c));
            }
        }
        if exists|j: int| 0 <= j < d[i].monitors.len() && #[trigger] repeats_at(d, i, j, c) {
            let j = choose|j: int| 0 <= j < d[i].monitors.len() && #[trigger] repeats_at(d, i, j, c);
            assert(repeats_at(d, i, j, c));
        }
    }
}

proof fn lemma_enabled_prefix(d: Seq<DisplayView>, n: int)
    requires
        0 <= n <= d.len(),
    ensures
        enabled_of(d.take(n)).len() <= enabled_of(d).len(),
        forall|t: int| 0 <= t < enabled_of(d.take(n)).len() ==> enabled_of(d.take(n))[t] == #[trigger] enabled_of(d)[t],
    decreases d.len() - n,
{
    if n < d.len() {
        lemma_enabled_prefix(d, n + 1);
        assert(d.take(n + 1).drop_last() =~= d.take(n));
    } else {
        assert(d.take(n) =~= d);
    }
}

/// The connectors seen before assignment `(i, j)` are the flattened list up
/// to its position, and the assignment sits at that position.
pub proof fn lemma_seen_is_prefix(d: Seq<DisplayView>, i: int, j: int)
    requires
        0 <= i < d.len(),
        0 <= j < d[i].monitors.len(),
    ensures
        ({
            let f = enabled_of(d);
            let b = enabled_of(d.take(i)).len() + j;
            &&& b < f.len()
            &&& f.take(b) == seen_before(d, i, j)
            &&& f[b] == d[i].monitors[j].connector
        }),
{
    let f = enabled_of(d);
    let p = enabled_of(d.take(i));
    let conns = d[i].monitors.map_values(|a: AssignmentView| a.connector);
    assert(d.take(i + 1).drop_last() =~= d.take(i));
    assert(d.take(i + 1).last() == d[i]);
    let q = enabled_of(d.take(i + 1));
    assert(q == p + conns);
    lemma_enabled_prefix(d, i + 1);
    let b = p.len() + j;
    assert(q[b] == conns[j]);
    assert(d.subrange(0, i) =~= d.take(i));
    let seen = seen_before(d, i, j);
    assert(seen == p + d[i].monitors.subrange(0, j).map_values(|a: AssignmentView| a.connector));
    assert forall|t: int| 0 <= t < b implies #[trigger] f.take(b)[t] == seen[t] by {
        assert(f[t] == q[t]);
    }
    assert(f.take(b) =~= seen);
}

/// Position of assignment `(i, j)` in the flattened connector list.
pub open spec fn flat_pos(d: Seq<DisplayView>, i: int, j: int) -> int {
    enabled_of(d.take(i)).len() + j
}

proof fn lemma_locate(d: Seq<DisplayView>, b: int)
    requires
        0 <= b < enabled_of(d).len(),
    ensures
        exists|i: int, j: int|
            0 <= i < d.len() && 0 <= j < d[i].monitors.len() && #[trigger] flat_pos(d, i, j) == b,
    decreases d.len(),
{
    let dp = d.drop_last();
    let fp = enabled_of(dp);
    if b < fp.len() {
        lemma_locate(dp, b);
        let (i, j) = choose|i: int, j: int|
            0 <= i < dp.len() && 0 <= j < dp[i].monitors.len() && #[trigger] flat_pos(dp, i, j) == b;
        assert(dp.take(i) =~= d.take(i));
        assert(dp[i] == d[i]);
        assert(flat_pos(d, i, j) == b);
    } else {
        let i = d.len() - 1;
        assert(d.take(i) =~= dp);
        let j = b - fp.len();
        assert(flat_pos(d, i, j) == b);
    }
}

/// Validation reports connector `c` as being in more than one group
/// exactly when `c` occurs in at least two assignments of the layout.
#[verifier::spinoff_prover]
#[verifier::rlimit(100)]
pub proof fn lemma_validate_repeated_monitor(m: Seq<MonitorView>, l: LayoutView, policy: ValidationPolicy, c: Seq<char>)
    requires
        l.displays.len() > 0,
    ensures
        validate_spec(m, l, policy).contains(ProblemView::MonitorInMultipleGroups { connector: c }) <==> exists|
            a: int,
            b: int,
        | 0 <= a < b < enabled_of(l.displays).len() && #[trigger] enabled_of(l.displays)[a] == c && #[trigger] enabled_of(
            l.displays,
        )[b] == c,
{
    let d = l.displays;
    let mode = l.layout_mode;
    let n = d.len() as int;
    let f = enabled_of(d);
    let a = resolution_problems(m, d, mode, n);
    let b = mirroring_problems(d, policy);
    let cp = global_scale_problems(d, policy) + physical_problems_upto(d, mode, n) + capability_problems(m, d, n)
        + mismatch_problems(m, d, n);
    let pp = primary_problems(d);
    let res = resolved_upto(m, d, mode, n);
    let g0 = overlap_problems(res, res.len() as int) + adjacency_problems(res);
    let og = origin_problems(res);
    assert(all_narrow(global_scale_problems(d, policy)));
    lemma_physical_narrow(d, mode, n);
    lemma_capability_narrow(m, d, n);
    lemma_mismatch_narrow(m, d, n);
    lemma_all_narrow_add(global_scale_problems(d, policy), physical_problems_upto(d, mode, n));
    lemma_all_narrow_add(global_scale_problems(d, policy) + physical_problems_upto(d, mode, n), capability_problems(m, d, n));
    lemma_all_narrow_add(
        global_scale_problems(d, policy) + physical_problems_upto(d, mode, n) + capability_problems(m, d, n),
        mismatch_problems(m, d, n),
    );
    lemma_overlap_narrow(res, res.len() as int);
    assert(all_narrow(adjacency_problems(res)));
    lemma_all_narrow_add(overlap_problems(res, res.len() as int), adjacency_problems(res));
    let rest = b + cp + pp + g0 + og;
    assert(!b.contains(dup_report(c)));
    assert(!pp.contains(dup_report(c)));
    assert(!og.contains(dup_report(c)));
    lemma_narrow_no_dup(cp, c);
    lemma_narrow_no_dup(g0, c);
    lemma_contains_add(b, cp, dup_report(c));
    lemma_contains_add(b + cp, pp, dup_report(c));
    lemma_contains_add(b + cp + pp, g0, dup_report(c));
    lemma_contains_add(b + cp + pp + g0, og, dup_report(c));
    assert(validate_spec(m, l, policy) =~= a + rest);
    lemma_contains_add(a, rest, dup_report(c));
    lemma_resolution_dup(m, d, mode, n, c);
    if exists|i: int, j: int| 0 <= i < n && #[trigger] repeats_at(d, i, j, c) {
        let (i, j) = choose|i: int, j: int| 0 <= i < n && #[trigger] repeats_at(d, i, j, c);
        lemma_seen_is_prefix(d, i, j);
        let bb = enabled_of(d.take(i)).len() + j;
        let seen = seen_before(d, i, j);
        let aa = choose|aa: int| 0 <= aa < seen.len() && seen[aa] == c;
        assert(f.take(bb)[aa] == f[aa]);
        assert(f[aa] == c && f[bb] == c);
    }
    if exists|aa: int, bb: int| 0 <= aa < bb < f.len() && #[trigger] f[aa] == c && #[trigger] f[bb] == c {
        let (aa, bb) = choose|aa: int, bb: int| 0 <= aa < bb < f.len() && #[trigger] f[aa] == c && #[trigger] f[bb] == c;
        lemma_locate(d, bb);
        let (i, j) = choose|i: int, j: int|
            0 <= i < d.len() && 0 <= j < d[i].monitors.len() && #[trigger] flat_pos(d, i, j) == bb;
        lemma_seen_is_prefix(d, i, j);
        assert(f.take(bb)[aa] == f[aa]);
        assert(seen_before(d, i, j).contains(c));
        assert(repeats_at(d, i, j, c));
    }
}

// ---------------------------------------------------------------------
// Overlap reports.
// ---------------------------------------------------------------------

/// Not an overlap report.
pub open spec fn not_overlap(p: ProblemView) -> bool {
    !(p is Overlap)
}

/// No report in `s` is an overlap report.
pub open spec fn no_overlap(s: Seq<ProblemView>) -> bool {
    forall|k: int| 0 <= k < s.len() ==> not_overlap(#[trigger] s[k])
}

proof fn lemma_no_overlap_add(a: Seq<ProblemView>, b: Seq<ProblemView>)
    requires
        no_overlap(a),
        no_overlap(b),
    ensures
        no_overlap(a + b),
{
    assert forall|k: int| 0 <= k < (a + b).len() implies not_overlap(#[trigger] (a + b)[k]) by {
        if k < a.len() {
            assert((a + b)[k] == a[k]);
        } else {
            assert((a + b)[k] == b[k - a.len()]);
        }
    }
}

proof fn lemma_assignments_no_overlap(m: Seq<MonitorView>, d: Seq<DisplayView>, mode: LayoutMode, i: int, n: int)
    ensures
        no_overlap(assignments_problems_upto(m, d, mode, i, n)),
    decreases n,
{
    if n > 0 {
        lemma_assignments_no_overlap(m, d, mode, i, n - 1);
        let a = assignment_problems(m, d, mode, i, n - 1);
        assert(no_overlap(a));
        lemma_no_overlap_add(assignments_problems_upto(m, d, mode, i, n - 1), a);
    }
}

proof fn lemma_resolution_no_overlap(m: Seq<MonitorView>, d: Seq<DisplayView>, mode: LayoutMode, n: int)
    ensures
        no_overlap(resolution_problems(m, d, mode, n)),
    decreases n,
{
    if n > 0 {
        lemma_resolution_no_overlap(m, d, mode, n - 1);
        let i = n - 1;
        let e = if d[i].monitors.len() == 0 { seq![ProblemView::EmptyGroup] } else { Seq::empty() };
        let s = if d[i].scale <= 0 { seq![ProblemView::InvalidScale { scale: d[i].scale }] } else { Seq::empty() };
        assert(no_overlap(e));
        assert(no_overlap(s));
        lemma_no_overlap_add(e, s);
        lemma_assignments_no_overlap(m, d, mode, i, d[i].monitors.len() as int);
        lemma_no_overlap_add(e + s, assignments_problems_upto(m, d, mode, i, d[i].monitors.len() as int));
        assert(display_problems(m, d, mode, i) == e + s + assignments_problems_upto(
            m,
            d,
            mode,
            i,
            d[i].monitors.len() as int,
        ));
        lemma_no_overlap_add(resolution_problems(m, d, mode, n - 1), display_problems(m, d, mode, i));
    }
}

proof fn lemma_physical_no_overlap(d: Seq<DisplayView>, mode: LayoutMode, n: int)
    ensures
        no_overlap(physical_problems_upto(d, mode, n)),
    decreases n,
{
    if n > 0 && mode == LayoutMode::Physical {
        lemma_physical_no_overlap(d, mode, n - 1);
        let prev = physical_problems_upto(d, mode, n - 1);
        let last = physical_problems_upto(d, mode, n).subrange(prev.len() as int, physical_problems_upto(d, mode, n).len() as int);
        assert(physical_problems_upto(d, mode, n) == prev + last);
        assert(no_overlap(last));
        lemma_no_overlap_add(prev, last);
    }
}

proof fn lemma_capability_members_no_overlap(m: Seq<MonitorView>, members: Seq<crate::layout::AssignmentView>, n: int)
    ensures
        no_overlap(capability_members(m, members, n)),
    decreases n,
{
    if n > 0 {
        lemma_capability_members_no_overlap(m, members, n - 1);
        let c = capability_problem(m, members[n - 1]);
        assert(no_overlap(c));
        lemma_no_overlap_add(capability_members(m, members, n - 1), c);
    }
}

proof fn lemma_capability_no_overlap(m: Seq<MonitorView>, d: Seq<DisplayView>, n: int)
    ensures
        no_overlap(capability_problems(m, d, n)),
    decreases n,
{
    if n > 0 {
        lemma_capability_no_overlap(m, d, n - 1);
        lemma_capability_members_no_overlap(m, d[n - 1].monitors, d[n - 1].monitors.len() as int);
        lemma_no_overlap_add(
            capability_problems(m, d, n - 1),
            capability_members(m, d[n - 1].monitors, d[n - 1].monitors.len() as int),
        );
    }
}

proof fn lemma_mismatch_no_overlap(m: Seq<MonitorView>, d: Seq<DisplayView>, n: int)
    ensures
        no_overlap(mismatch_problems(m, d, n)),
    decreases n,
{
    if n > 0 {
        lemma_mismatch_no_overlap(m, d, n - 1);
        let prev = mismatch_problems(m, d, n - 1);
        let all = mismatch_problems(m, d, n);
        let last = all.subrange(prev.len() as int, all.len() as int);
        assert(all == prev + last);
        assert(no_overlap(last));
        lemma_no_overlap_add(prev, last);
    }
}


/// The report that displays `i` and `j` (counted from zero) overlap.
pub open spec fn overlap_report(i: int, j: int) -> ProblemView {
    ProblemView::Overlap { a: (i + 1) as usize, b: (j + 1) as usize }
}

/// Displays `i < j` both have a rectangle, and the rectangles overlap.
pub open spec fn displays_overlap(m: Seq<MonitorView>, d: Seq<DisplayView>, mode: LayoutMode, i: int, j: int) -> bool {
    &&& 0 <= i < j < d.len()
    &&& rect_of(m, d[i], mode) is Some
    &&& rect_of(m, d[j], mode) is Some
    &&& rect_of(m, d[i], mode)->0.overlaps_spec(rect_of(m, d[j], mode)->0)
}

proof fn lemma_resolved_entries(m: Seq<MonitorView>, d: Seq<DisplayView>, mode: LayoutMode, n: int)
    requires
        0 <= n <= d.len(),
    ensures
        forall|p: int|
            0 <= p < resolved_upto(m, d, mode, n).len() ==> 0 <= (#[trigger] resolved_upto(m, d, mode, n)[p]).0 < n
                && rect_of(m, d[resolved_upto(m, d, mode, n)[p].0], mode) == Some(resolved_upto(m, d, mode, n)[p].1),
        forall|p: int, q: int|
            0 <= p < q < resolved_upto(m, d, mode, n).len() ==> (#[trigger] resolved_upto(m, d, mode, n)[p]).0
                < (#[trigger] resolved_upto(m, d, mode, n)[q]).0,
        forall|i: int|
            0 <= i < n && #[trigger] rect_of(m, d[i], mode) is Some ==> exists|p: int|
                0 <= p < resolved_upto(m, d, mode, n).len() && (#[trigger] resolved_upto(m, d, mode, n)[p]).0 == i,
    decreases n,
{
    if n > 0 {
        lemma_resolved_entries(m, d, mode, n - 1);
        let prev = resolved_upto(m, d, mode, n - 1);
        let cur = resolved_upto(m, d, mode, n);
        assert forall|i: int| 0 <= i < n && #[trigger] rect_of(m, d[i], mode) is Some implies exists|p: int|
            0 <= p < cur.len() && (#[trigger] cur[p]).0 == i by {
            if i < n - 1 {
                let p = choose|p: int| 0 <= p < prev.len() && (#[trigger] prev[p]).0 == i;
                assert(cur[p] == prev[p]);
            } else {
                assert(cur[prev.len() as int].0 == i);
            }
        }
        assert forall|p: int, q: int| 0 <= p < q < cur.len() implies (#[trigger] cur[p]).0 < (#[trigger] cur[q]).0 by {
            assert(cur[p] == prev[p]);
            if q < prev.len() {
                assert(cur[q] == prev[q]);
            }
        }
        assert forall|p: int| 0 <= p < cur.len() implies 0 <= (#[trigger] cur[p]).0 < n && rect_of(m, d[cur[p].0], mode)
            == Some(cur[p].1) by {
            if p < prev.len() {
                assert(cur[p] == prev[p]);
            }
        }
    }
}

proof fn lemma_overlaps_with_entries(res: Seq<(int, Rect)>, a: int, n: int)
    requires
        0 <= a,
        n <= res.len(),
    ensures
        forall|q: int|
            a < q < n && res[a].1.overlaps_spec(#[trigger] res[q].1) ==> overlaps_with(res, a, n).contains(
                overlap_report(res[a].0, res[q].0),
            ),
        forall|k: int|
            0 <= k < overlaps_with(res, a, n).len() ==> exists|q: int|
                a < q < n && res[a].1.overlaps_spec(res[q].1) && #[trigger] overlaps_with(res, a, n)[k]
                    == overlap_report(res[a].0, res[q].0),
    decreases n - a,
{
    if n > a + 1 {
        lemma_overlaps_with_entries(res, a, n - 1);
        let prev = overlaps_with(res, a, n - 1);
        let cur = overlaps_with(res, a, n);
        let x = overlap_report(res[a].0, res[n - 1].0);
        if res[a].1.overlaps_spec(res[n - 1].1) {
            assert(cur == prev + seq![x]);
            assert(cur[prev.len() as int] == x);
        } else {
            assert(cur == prev + Seq::<ProblemView>::empty());
            assert(cur =~= prev);
        }
        assert forall|q: int| a < q < n && res[a].1.overlaps_spec(#[trigger] res[q].1) implies cur.contains(
            overlap_report(res[a].0, res[q].0),
        ) by {
            if q < n - 1 {
                let y = overlap_report(res[a].0, res[q].0);
                let t = choose|t: int| 0 <= t < prev.len() && prev[t] == y;
                assert(cur[t] == y);
            }
        }
        assert forall|k: int| 0 <= k < cur.len() implies exists|q: int|
            a < q < n && res[a].1.overlaps_spec(res[q].1) && #[trigger] cur[k]
                == overlap_report(res[a].0, res[q].0) by {
            if k < prev.len() {
                assert(cur[k] == prev[k]);
            } else {
                assert(cur[k] == x);
            }
        }
    }
}

proof fn lemma_overlap_entries(res: Seq<(int, Rect)>, n: int)
    requires
        n <= res.len(),
    ensures
        forall|p: int, q: int|
            0 <= p < n && p < q < res.len() && res[p].1.overlaps_spec(res[q].1) ==> #[trigger] overlap_problems(
                res,
                n,
            ).contains(overlap_report(res[p].0, res[q].0)),
        forall|k: int|
            0 <= k < overlap_problems(res, n).len() ==> exists|p: int, q: int|
                0 <= p < q < res.len() && res[p].1.overlaps_spec(res[q].1) && #[trigger] overlap_problems(res, n)[k]
                    == overlap_report(res[p].0, res[q].0),
    decreases n,
{
    if n > 0 {
        lemma_overlap_entries(res, n - 1);
        lemma_overlaps_with_entries(res, n - 1, res.len() as int);
        let prev = overlap_problems(res, n - 1);
        let w = overlaps_with(res, n - 1, res.len() as int);
        let cur = overlap_problems(res, n);
        assert(cur == prev + w);
        assert forall|p: int, q: int|
            0 <= p < n && p < q < res.len() && res[p].1.overlaps_spec(res[q].1) implies #[trigger] cur.contains(
            overlap_report(res[p].0, res[q].0),
        ) by {
            let y = overlap_report(res[p].0, res[q].0);
            if p < n - 1 {
                assert(prev.contains(y));
                let t = choose|t: int| 0 <= t < prev.len() && prev[t] == y;
                assert(cur[t] == y);
            } else {
                assert(w.contains(y));
                let t = choose|t: int| 0 <= t < w.len() && w[t] == y;
                assert(cur[prev.len() + t] == y);
            }
        }
        assert forall|k: int| 0 <= k < cur.len() implies exists|p: int, q: int|
            0 <= p < q < res.len() && res[p].1.overlaps_spec(res[q].1) && #[trigger] cur[k]
                == overlap_report(res[p].0, res[q].0) by {
            if k < prev.len() {
                assert(cur[k] == prev[k]);
            } else {
                assert(cur[k] == w[k - prev.len()]);
            }
        }
    }
}

/// Validation reports an overlap for every pair of displays whose
/// rectangles overlap, naming them by position (counted from one, earlier
/// display first), and reports no other overlap.
#[verifier::spinoff_prover]
#[verifier::rlimit(80)]
pub proof fn lemma_validate_overlaps(m: Seq<MonitorView>, l: LayoutView, policy: ValidationPolicy)
    requires
        l.displays.len() < usize::MAX,
    ensures
        forall|i: int, j: int|
            #[trigger] displays_overlap(m, l.displays, l.layout_mode, i, j) ==> validate_spec(m, l, policy).contains(
                overlap_report(i, j),
            ),
        forall|k: int|
            0 <= k < validate_spec(m, l, policy).len() && (#[trigger] validate_spec(m, l, policy)[k]) is Overlap
                ==> exists|i: int, j: int|
                displays_overlap(m, l.displays, l.layout_mode, i, j) && validate_spec(m, l, policy)[k]
                    == #[trigger] overlap_report(i, j),
{
    let d = l.displays;
    let mode = l.layout_mode;
    let n = d.len() as int;
    let v = validate_spec(m, l, policy);
    if n == 0 {
        assert forall|i: int, j: int| #[trigger] displays_overlap(m, d, mode, i, j) implies v.contains(
            overlap_report(i, j),
        ) by {}
        assert(v[0] == ProblemView::NoActiveDisplays);
        return;
    }
    let res = resolved_upto(m, d, mode, n);
    lemma_resolved_entries(m, d, mode, n);
    lemma_overlap_entries(res, res.len() as int);
    let op = overlap_problems(res, res.len() as int);
    let head = resolution_problems(m, d, mode, n) + mirroring_problems(d, policy) + global_scale_problems(d, policy)
        + physical_problems_upto(d, mode, n) + capability_problems(m, d, n) + mismatch_problems(m, d, n)
        + primary_problems(d);
    let tail = adjacency_problems(res) + origin_problems(res);
    lemma_resolution_no_overlap(m, d, mode, n);
    assert(no_overlap(mirroring_problems(d, policy)));
    assert(no_overlap(global_scale_problems(d, policy)));
    lemma_physical_no_overlap(d, mode, n);
    lemma_capability_no_overlap(m, d, n);
    lemma_mismatch_no_overlap(m, d, n);
    assert(no_overlap(primary_problems(d)));
    lemma_no_overlap_add(resolution_problems(m, d, mode, n), mirroring_problems(d, policy));
    lemma_no_overlap_add(
        resolution_problems(m, d, mode, n) + mirroring_problems(d, policy),
        global_scale_problems(d, policy),
    );
    lemma_no_overlap_add(
        resolution_problems(m, d, mode, n) + mirroring_problems(d, policy) + global_scale_problems(d, policy),
        physical_problems_upto(d, mode, n),
    );
    lemma_no_overlap_add(
        resolution_problems(m, d, mode, n) + mirroring_problems(d, policy) + global_scale_problems(d, policy)
            + physical_problems_upto(d, mode, n),
        capability_problems(m, d, n),
    );
    lemma_no_overlap_add(
        resolution_problems(m, d, mode, n) + mirroring_problems(d, policy) + global_scale_problems(d, policy)
            + physical_problems_upto(d, mode, n) + capability_problems(m, d, n),
        mismatch_problems(m, d, n),
    );
    lemma_no_overlap_add(
        resolution_problems(m, d, mode, n) + mirroring_problems(d, policy) + global_scale_problems(d, policy)
            + physical_problems_upto(d, mode, n) + capability_problems(m, d, n) + mismatch_problems(m, d, n),
        primary_problems(d),
    );
    assert(no_overlap(adjacency_problems(res)));
    assert(no_overlap(origin_problems(res)));
    lemma_no_overlap_add(adjacency_problems(res), origin_problems(res));
    assert(v =~= head + op + tail);
    let lh = head.len() as int;
    let lo = op.len() as int;
    assert forall|i: int, j: int| #[trigger] displays_overlap(m, d, mode, i, j) implies v.contains(overlap_report(i, j)) by {
        let p = choose|p: int| 0 <= p < res.len() && (#[trigger] res[p]).0 == i;
        let q = choose|q: int| 0 <= q < res.len() && (#[trigger] res[q]).0 == j;
        if q <= p {
            if q < p {
                assert(res[q].0 < res[p].0);
            }
        }
        assert(p < q);
        assert(res[p].1 == rect_of(m, d[i], mode)->0);
        assert(res[q].1 == rect_of(m, d[j], mode)->0);
        assert(op.contains(overlap_report(res[p].0, res[q].0)));
        let t = choose|t: int| 0 <= t < op.len() && op[t] == overlap_report(i, j);
        assert(v[lh + t] == op[t]);
    }
    assert forall|k: int| 0 <= k < v.len() && (#[trigger] v[k]) is Overlap implies exists|i: int, j: int|
        displays_overlap(m, d, mode, i, j) && v[k] == #[trigger] overlap_report(i, j) by {
        if k < lh {
            assert(v[k] == head[k]);
            assert(not_overlap(head[k]));
        } else if k < lh + lo {
            assert(v[k] == op[k - lh]);
            let (p, q) = choose|p: int, q: int|
                0 <= p < q < res.len() && res[p].1.overlaps_spec(res[q].1) && #[trigger] op[k - lh]
                    == overlap_report(res[p].0, res[q].0);
            let i = res[p].0;
            let j = res[q].0;
            assert(displays_overlap(m, d, mode, i, j));
            assert(v[k] == overlap_report(i, j));
        } else {
            assert(v[k] == tail[k - lh - lo]);
            assert(not_overlap(tail[k - lh - lo]));
        }
    }
}

// ---------------------------------------------------------------------
// Reports about single displays and assignments.
// ---------------------------------------------------------------------

/// Not a report that only checking displays and assignments one by one
/// gives.
pub open spec fn outside_resolution(p: ProblemView) -> bool {
    !(p is EmptyGroup) && !(p is InvalidScale) && !(p is UnknownConnector) && !(p is UnknownMode)
        && !(p is UnsupportedScale)
}

/// Every report in `s` is outside the per-display checks.
pub open spec fn all_outside(s: Seq<ProblemView>) -> bool {
    forall|k: int| 0 <= k < s.len() ==> outside_resolution(#[trigger] s[k])
}

proof fn lemma_all_outside_add(a: Seq<ProblemView>, b: Seq<ProblemView>)
    requires
        all_outside(a),
        all_outside(b),
    ensures
        all_outside(a + b),
{
    assert forall|k: int| 0 <= k < (a + b).len() implies outside_resolution(#[trigger] (a + b)[k]) by {
        if k < a.len() {
            assert((a + b)[k] == a[k]);
        } else {
            assert((a + b)[k] == b[k - a.len()]);
        }
    }
}

proof fn lemma_physical_outside(d: Seq<DisplayView>, mode: LayoutMode, n: int)
    ensures
        all_outside(physical_problems_upto(d, mode, n)),
    decreases n,
{
    if n > 0 && mode == LayoutMode::Physical {
        lemma_physical_outside(d, mode, n - 1);
        let prev = physical_problems_upto(d, mode, n - 1);
        let last = physical_problems_upto(d, mode, n).subrange(prev.len() as int, physical_problems_upto(d, mode, n).len() as int);
        assert(physical_problems_upto(d, mode, n) == prev + last);
        assert(all_outside(last));
        lemma_all_outside_add(prev, last);
    }
}

proof fn lemma_capability_members_outside(m: Seq<MonitorView>, members: Seq<crate::layout::AssignmentView>, n: int)
    ensures
        all_outside(capability_members(m, members, n)),
    decreases n,
{
    if n > 0 {
        lemma_capability_members_outside(m, members, n - 1);
        let c = capability_problem(m, members[n - 1]);
        assert(all_outside(c));
        lemma_all_outside_add(capability_members(m, members, n - 1), c);
    }
}

proof fn lemma_capability_outside(m: Seq<MonitorView>, d: Seq<DisplayView>, n: int)
    ensures
        all_outside(capability_problems(m, d, n)),
    decreases n,
{
    if n > 0 {
        lemma_capability_outside(m, d, n - 1);
        lemma_capability_members_outside(m, d[n - 1].monitors, d[n - 1].monitors.len() as int);
        lemma_all_outside_add(
            capability_problems(m, d, n - 1),
            capability_members(m, d[n - 1].monitors, d[n - 1].monitors.len() as int),
        );
    }
}

proof fn lemma_mismatch_outside(m: Seq<MonitorView>, d: Seq<DisplayView>, n: int)
    ensures
        all_outside(mismatch_problems(m, d, n)),
    decreases n,
{
    if n > 0 {
        lemma_mismatch_outside(m, d, n - 1);
        let prev = mismatch_problems(m, d, n - 1);
        let all = mismatch_problems(m, d, n);
        let last = all.subrange(prev.len() as int, all.len() as int);
        assert(all == prev + last);
        assert(all_outside(last));
        lemma_all_outside_add(prev, last);
    }
}

proof fn lemma_overlaps_with_outside(res: Seq<(int, Rect)>, a: int, n: int)
    ensures
        all_outside(overlaps_with(res, a, n)),
    decreases n - a,
{
    if n > a + 1 {
        lemma_overlaps_with_outside(res, a, n - 1);
        let prev = overlaps_with(res, a, n - 1);
        let all = overlaps_with(res, a, n);
        let last = all.subrange(prev.len() as int, all.len() as int);
        assert(all == prev + last);
        assert(all_outside(last));
        lemma_all_outside_add(prev, last);
    }
}

proof fn lemma_overlap_outside(res: Seq<(int, Rect)>, n: int)
    ensures
        all_outside(overlap_problems(res, n)),
    decreases n,
{
    if n > 0 {
        lemma_overlap_outside(res, n - 1);
        lemma_overlaps_with_outside(res, n - 1, res.len() as int);
        lemma_all_outside_add(overlap_problems(res, n - 1), overlaps_with(res, n - 1, res.len() as int));
    }
}


/// The report of a non-positive scale.
pub open spec fn invalid_scale_report(s: i64) -> ProblemView {
    ProblemView::InvalidScale { scale: s }
}

/// The report of a connector no monitor has.
pub open spec fn unknown_connector_report(c: Seq<char>) -> ProblemView {
    ProblemView::UnknownConnector { connector: c }
}

/// No connected monitor is on connector `c`.
pub open spec fn not_connected(m: Seq<MonitorView>, c: Seq<char>) -> bool {
    forall|t: int| 0 <= t < m.len() ==> (#[trigger] m[t]).identity.connector@ != c
}

/// Display `i` holds an assignment on connector `c`.
pub open spec fn assigns(d: Seq<DisplayView>, i: int, c: Seq<char>) -> bool {
    0 <= i < d.len() && exists|j: int| 0 <= j < d[i].monitors.len() && (#[trigger] d[i].monitors[j]).connector == c
}

/// The report of a mode ID the monitor on `c` lacks.
pub open spec fn unknown_mode_report(c: Seq<char>, id: Seq<char>) -> ProblemView {
    ProblemView::UnknownMode { connector: c, mode_id: id }
}

/// Monitor `t` is the first connected monitor on `c`, and none of its
/// modes has ID `id`.
pub open spec fn lacks_mode(m: Seq<MonitorView>, c: Seq<char>, id: Seq<char>, t: int) -> bool {
    &&& 0 <= t < m.len()
    &&& m[t].identity.connector@ == c
    &&& forall|u: int| 0 <= u < t ==> (#[trigger] m[u]).identity.connector@ != c
    &&& forall|k: int| 0 <= k < m[t].modes.len() ==> (#[trigger] m[t].modes[k]).id != id
}

/// Display `i` holds an assignment on connector `c` with mode ID `id`.
pub open spec fn assigns_mode(d: Seq<DisplayView>, i: int, c: Seq<char>, id: Seq<char>) -> bool {
    0 <= i < d.len() && exists|j: int|
        0 <= j < d[i].monitors.len() && (#[trigger] d[i].monitors[j]).connector == c && d[i].monitors[j].mode_id == id
}

proof fn lemma_lacks_mode(m: Seq<MonitorView>, c: Seq<char>, id: Seq<char>)
    ensures
        (crate::layout::find_monitor(m, c) matches Some(mi) && crate::layout::find_mode(m[mi].modes, id) is None)
            <==> exists|t: int| #[trigger] lacks_mode(m, c, id, t),
{
    let cp = crate::layout::connector_is(c);
    let mp = |x: crate::mode::ModeView| x.id == id;
    if let Some(mi) = crate::layout::find_monitor(m, c) {
        let k0 = choose|k0: int| crate::seqs::is_first(m, cp, k0);
        crate::seqs::lemma_first_where_at(m, cp, k0);
        assert forall|u: int| 0 <= u < mi implies (#[trigger] m[u]).identity.connector@ != c by {
            assert(!cp(m[u]));
        }
        if crate::layout::find_mode(m[mi].modes, id) is None {
            assert forall|k: int| 0 <= k < m[mi].modes.len() implies (#[trigger] m[mi].modes[k]).id != id by {
                if m[mi].modes[k].id == id {
                    crate::seqs::lemma_first_where_some(m[mi].modes, mp, k);
                }
            }
            assert(lacks_mode(m, c, id, mi));
        } else {
            if exists|t: int| #[trigger] lacks_mode(m, c, id, t) {
                let t = choose|t: int| #[trigger] lacks_mode(m, c, id, t);
                if t < mi {
                    assert(!cp(m[t]));
                } else if mi < t {
                    assert(m[mi].identity.connector@ != c);
                }
                let k = crate::layout::find_mode(m[mi].modes, id)->0;
                let k1 = choose|k1: int| crate::seqs::is_first(m[mi].modes, mp, k1);
                crate::seqs::lemma_first_where_at(m[mi].modes, mp, k1);
                assert(m[t].modes[k].id == id);
            }
        }
    } else {
        if exists|t: int| #[trigger] lacks_mode(m, c, id, t) {
            let t = choose|t: int| #[trigger] lacks_mode(m, c, id, t);
            crate::seqs::lemma_first_where_some(m, cp, t);
        }
    }
}

proof fn lemma_not_connected(m: Seq<MonitorView>, c: Seq<char>)
    ensures
        crate::layout::find_monitor(m, c) is None <==> not_connected(m, c),
{
    let cp = crate::layout::connector_is(c);
    if crate::layout::find_monitor(m, c) is None {
        assert forall|t: int| 0 <= t < m.len() implies (#[trigger] m[t]).identity.connector@ != c by {
            if m[t].identity.connector@ == c {
                crate::seqs::lemma_first_where_some(m, cp, t);
            }
        }
    } else {
        let i = crate::layout::find_monitor(m, c)->0;
        let k = choose|k: int| crate::seqs::is_first(m, cp, k);
        crate::seqs::lemma_first_where_at(m, cp, k);
        assert(cp(m[k]));
    }
}

proof fn lemma_assignment_contains(m: Seq<MonitorView>, d: Seq<DisplayView>, mode: LayoutMode, i: int, j: int)
    requires
        0 <= i < d.len(),
        0 <= j < d[i].monitors.len(),
    ensures
        !assignment_problems(m, d, mode, i, j).contains(ProblemView::EmptyGroup),
        forall|s: i64| !assignment_problems(m, d, mode, i, j).contains(#[trigger] invalid_scale_report(s)),
        forall|c: Seq<char>|
            #[trigger] assignment_problems(m, d, mode, i, j).contains(unknown_connector_report(c)) <==> (
            d[i].monitors[j].connector == c && not_connected(m, c)),
        forall|c: Seq<char>, id: Seq<char>|
            #[trigger] assignment_problems(m, d, mode, i, j).contains(unknown_mode_report(c, id)) <==> (
            d[i].monitors[j].connector == c && d[i].monitors[j].mode_id == id && exists|t: int|
                #[trigger] lacks_mode(m, c, id, t)),
{
    let a = d[i].monitors[j];
    let ap = assignment_problems(m, d, mode, i, j);
    lemma_not_connected(m, a.connector);
    lemma_lacks_mode(m, a.connector, a.mode_id);
    assert forall|c: Seq<char>, id: Seq<char>| #[trigger] ap.contains(unknown_mode_report(c, id)) <==> (a.connector == c
        && a.mode_id == id && exists|t: int| #[trigger] lacks_mode(m, c, id, t)) by {
        let dup = if seen_before(d, i, j).contains(a.connector) {
            seq![ProblemView::MonitorInMultipleGroups { connector: a.connector }]
        } else {
            Seq::<ProblemView>::empty()
        };
        if ap.contains(unknown_mode_report(c, id)) {
            let k = choose|k: int| 0 <= k < ap.len() && ap[k] == unknown_mode_report(c, id);
            if k >= dup.len() {
                assert(crate::layout::find_monitor(m, a.connector) is Some);
            }
        }
        if a.connector == c && a.mode_id == id && exists|t: int| #[trigger] lacks_mode(m, c, id, t) {
            assert(ap == dup + seq![unknown_mode_report(c, id)]);
            assert(ap[dup.len() as int] == unknown_mode_report(c, id));
        }
    }
    assert(ap.len() <= 2);
    assert forall|k: int| 0 <= k < ap.len() implies !(#[trigger] ap[k] is EmptyGroup) && !(ap[k] is InvalidScale) && (
    ap[k] is UnknownConnector ==> ap[k] == unknown_connector_report(a.connector) && not_connected(m, a.connector)) by {
    }
    if ap.contains(ProblemView::EmptyGroup) {
        let k = choose|k: int| 0 <= k < ap.len() && ap[k] == ProblemView::EmptyGroup;
        assert(!(ap[k] is EmptyGroup));
    }
    assert forall|s: i64| !ap.contains(#[trigger] invalid_scale_report(s)) by {
        if ap.contains(invalid_scale_report(s)) {
            let k = choose|k: int| 0 <= k < ap.len() && ap[k] == invalid_scale_report(s);
            assert(!(ap[k] is InvalidScale));
        }
    }
    assert forall|c: Seq<char>| #[trigger] ap.contains(unknown_connector_report(c)) <==> (a.connector == c && not_connected(m, c)) by {
        if ap.contains(unknown_connector_report(c)) {
            let k = choose|k: int| 0 <= k < ap.len() && ap[k] == unknown_connector_report(c);
            assert(ap[k] is UnknownConnector);
        }
        if a.connector == c && not_connected(m, c) {
            assert(crate::layout::find_monitor(m, c) is None);
            let dup = if seen_before(d, i, j).contains(a.connector) {
                seq![ProblemView::MonitorInMultipleGroups { connector: a.connector }]
            } else {
                Seq::<ProblemView>::empty()
            };
            assert(ap == dup + seq![unknown_connector_report(c)]);
            assert(ap[dup.len() as int] == unknown_connector_report(c));
        }
    }
}

proof fn lemma_assignments_contains(m: Seq<MonitorView>, d: Seq<DisplayView>, mode: LayoutMode, i: int, n: int, x: ProblemView)
    requires
        0 <= i < d.len(),
        0 <= n <= d[i].monitors.len(),
    ensures
        assignments_problems_upto(m, d, mode, i, n).contains(x) <==> exists|j: int|
            0 <= j < n && #[trigger] assignment_problems(m, d, mode, i, j).contains(x),
    decreases n,
{
    if n > 0 {
        lemma_assignments_contains(m, d, mode, i, n - 1, x);
        lemma_contains_add(assignments_problems_upto(m, d, mode, i, n - 1), assignment_problems(m, d, mode, i, n - 1), x);
    }
}

proof fn lemma_resolution_contains(m: Seq<MonitorView>, d: Seq<DisplayView>, mode: LayoutMode, n: int, x: ProblemView)
    requires
        0 <= n <= d.len(),
    ensures
        resolution_problems(m, d, mode, n).contains(x) <==> exists|i: int|
            0 <= i < n && #[trigger] display_problems(m, d, mode, i).contains(x),
    decreases n,
{
    if n > 0 {
        lemma_resolution_contains(m, d, mode, n - 1, x);
        lemma_contains_add(resolution_problems(m, d, mode, n - 1), display_problems(m, d, mode, n - 1), x);
    }
}

proof fn lemma_display_contains(m: Seq<MonitorView>, d: Seq<DisplayView>, mode: LayoutMode, i: int)
    requires
        0 <= i < d.len(),
    ensures
        display_problems(m, d, mode, i).contains(ProblemView::EmptyGroup) <==> d[i].monitors.len() == 0,
        forall|s: i64|
            #[trigger] display_problems(m, d, mode, i).contains(invalid_scale_report(s)) <==> (d[i].scale <= 0
                && d[i].scale == s),
        forall|c: Seq<char>|
            #[trigger] display_problems(m, d, mode, i).contains(unknown_connector_report(c)) <==> (assigns(d, i, c)
                && not_connected(m, c)),
        forall|c: Seq<char>, id: Seq<char>|
            #[trigger] display_problems(m, d, mode, i).contains(unknown_mode_report(c, id)) <==> (assigns_mode(
                d,
                i,
                c,
                id,
            ) && exists|t: int| #[trigger] lacks_mode(m, c, id, t)),
{
    let e = if d[i].monitors.len() == 0 { seq![ProblemView::EmptyGroup] } else { Seq::<ProblemView>::empty() };
    let sc = if d[i].scale <= 0 {
        seq![ProblemView::InvalidScale { scale: d[i].scale }]
    } else {
        Seq::<ProblemView>::empty()
    };
    let n = d[i].monitors.len() as int;
    let asg = assignments_problems_upto(m, d, mode, i, n);
    assert(display_problems(m, d, mode, i) == e + sc + asg);
    assert forall|j: int| 0 <= j < n implies !#[trigger] assignment_problems(m, d, mode, i, j).contains(
        ProblemView::EmptyGroup,
    ) by {
        lemma_assignment_contains(m, d, mode, i, j);
    }
    lemma_assignments_contains(m, d, mode, i, n, ProblemView::EmptyGroup);
    lemma_contains_add(e, sc, ProblemView::EmptyGroup);
    lemma_contains_add(e + sc, asg, ProblemView::EmptyGroup);
    if e.contains(ProblemView::EmptyGroup) {
    } else if d[i].monitors.len() == 0 {
        assert(e[0] == ProblemView::EmptyGroup);
    }
    if sc.contains(ProblemView::EmptyGroup) {
        assert(sc[0] != ProblemView::EmptyGroup);
    }
    assert forall|s: i64| #[trigger] display_problems(m, d, mode, i).contains(invalid_scale_report(s)) <==> (d[i].scale
        <= 0 && d[i].scale == s) by {
        let x = invalid_scale_report(s);
        assert forall|j: int| 0 <= j < n implies !#[trigger] assignment_problems(m, d, mode, i, j).contains(x) by {
            lemma_assignment_contains(m, d, mode, i, j);
        }
        lemma_assignments_contains(m, d, mode, i, n, x);
        lemma_contains_add(e, sc, x);
        lemma_contains_add(e + sc, asg, x);
        if e.contains(x) {
            assert(e[0] != x);
        }
        if d[i].scale <= 0 && d[i].scale == s {
            assert(sc[0] == x);
        }
    }
    assert forall|c: Seq<char>| #[trigger] display_problems(m, d, mode, i).contains(unknown_connector_report(c)) <==> (
    assigns(d, i, c) && not_connected(m, c)) by {
        let x = unknown_connector_report(c);
        lemma_assignments_contains(m, d, mode, i, n, x);
        lemma_contains_add(e, sc, x);
        lemma_contains_add(e + sc, asg, x);
        if e.contains(x) {
            assert(e[0] != x);
        }
        if sc.contains(x) {
            assert(sc[0] != x);
        }
        if asg.contains(x) {
            let j = choose|j: int| 0 <= j < n && #[trigger] assignment_problems(m, d, mode, i, j).contains(x);
            lemma_assignment_contains(m, d, mode, i, j);
        }
        if assigns(d, i, c) && not_connected(m, c) {
            let j = choose|j: int| 0 <= j < d[i].monitors.len() && (#[trigger] d[i].monitors[j]).connector == c;
            lemma_assignment_contains(m, d, mode, i, j);
            assert(assignment_problems(m, d, mode, i, j).contains(x));
        }
    }
    assert forall|c: Seq<char>, id: Seq<char>| #[trigger] display_problems(m, d, mode, i).contains(
        unknown_mode_report(c, id),
    ) <==> (assigns_mode(d, i, c, id) && exists|t: int| #[trigger] lacks_mode(m, c, id, t)) by {
        let x = unknown_mode_report(c, id);
        lemma_assignments_contains(m, d, mode, i, n, x);
        lemma_contains_add(e, sc, x);
        lemma_contains_add(e + sc, asg, x);
        if e.contains(x) {
            assert(e[0] != x);
        }
        if sc.contains(x) {
            assert(sc[0] != x);
        }
        if asg.contains(x) {
            let j = choose|j: int| 0 <= j < n && #[trigger] assignment_problems(m, d, mode, i, j).contains(x);
            lemma_assignment_contains(m, d, mode, i, j);
        }
        if assigns_mode(d, i, c, id) && exists|t: int| #[trigger] lacks_mode(m, c, id, t) {
            let j = choose|j: int|
                0 <= j < d[i].monitors.len() && (#[trigger] d[i].monitors[j]).connector == c && d[i].monitors[j].mode_id
                    == id;
            lemma_assignment_contains(m, d, mode, i, j);
            assert(assignment_problems(m, d, mode, i, j).contains(x));
        }
    }
}

proof fn lemma_outside_not_contains(s: Seq<ProblemView>, x: ProblemView)
    requires
        all_outside(s),
        !outside_resolution(x),
    ensures
        !s.contains(x),
{
    if s.contains(x) {
        let k = choose|k: int| 0 <= k < s.len() && s[k] == x;
        assert(outside_resolution(s[k]));
    }
}

/// For a layout with displays, validation reports an empty group exactly
/// when some display has no monitor, an invalid scale `s` exactly when
/// some display's scale is `s` and not positive, an unknown connector `c`
/// exactly when some display assigns `c` and no connected monitor is on
/// `c`, and an unknown mode `id` on `c` exactly when some display assigns
/// mode `id` on `c` and the first connected monitor on `c` has no mode
/// with that ID.
#[verifier::spinoff_prover]
#[verifier::rlimit(80)]
pub proof fn lemma_validate_display_checks(m: Seq<MonitorView>, l: LayoutView, policy: ValidationPolicy)
    requires
        l.displays.len() > 0,
    ensures
        validate_spec(m, l, policy).contains(ProblemView::EmptyGroup) <==> exists|i: int|
            0 <= i < l.displays.len() && (#[trigger] l.displays[i]).monitors.len() == 0,
        forall|s: i64|
            #[trigger] validate_spec(m, l, policy).contains(invalid_scale_report(s)) <==> s <= 0 && exists|i: int|
                0 <= i < l.displays.len() && (#[trigger] l.displays[i]).scale == s,
        forall|c: Seq<char>|
            #[trigger] validate_spec(m, l, policy).contains(unknown_connector_report(c)) <==> not_connected(m, c)
                && exists|i: int| #[trigger] assigns(l.displays, i, c),
        forall|c: Seq<char>, id: Seq<char>|
            #[trigger] validate_spec(m, l, policy).contains(unknown_mode_report(c, id)) <==> (exists|t: int|
                #[trigger] lacks_mode(m, c, id, t)) && exists|i: int| #[trigger] assigns_mode(l.displays, i, c, id),
{
    let d = l.displays;
    let mode = l.layout_mode;
    let n = d.len() as int;
    let a = resolution_problems(m, d, mode, n);
    let res = resolved_upto(m, d, mode, n);
    let rest = mirroring_problems(d, policy) + global_scale_problems(d, policy) + physical_problems_upto(d, mode, n)
        + capability_problems(m, d, n) + mismatch_problems(m, d, n) + primary_problems(d) + geometry_problems(
        m,
        d,
        mode,
    );
    assert(all_outside(mirroring_problems(d, policy)));
    assert(all_outside(global_scale_problems(d, policy)));
    lemma_physical_outside(d, mode, n);
    lemma_capability_outside(m, d, n);
    lemma_mismatch_outside(m, d, n);
    assert(all_outside(primary_problems(d)));
    lemma_overlap_outside(res, res.len() as int);
    assert(all_outside(adjacency_problems(res)));
    assert(all_outside(origin_problems(res)));
    lemma_all_outside_add(overlap_problems(res, res.len() as int), adjacency_problems(res));
    lemma_all_outside_add(overlap_problems(res, res.len() as int) + adjacency_problems(res), origin_problems(res));
    assert(geometry_problems(m, d, mode) == overlap_problems(res, res.len() as int) + adjacency_problems(res)
        + origin_problems(res));
    lemma_all_outside_add(mirroring_problems(d, policy), global_scale_problems(d, policy));
    lemma_all_outside_add(
        mirroring_problems(d, policy) + global_scale_problems(d, policy),
        physical_problems_upto(d, mode, n),
    );
    lemma_all_outside_add(
        mirroring_problems(d, policy) + global_scale_problems(d, policy) + physical_problems_upto(d, mode, n),
        capability_problems(m, d, n),
    );
    lemma_all_outside_add(
        mirroring_problems(d, policy) + global_scale_problems(d, policy) + physical_problems_upto(d, mode, n)
            + capability_problems(m, d, n),
        mismatch_problems(m, d, n),
    );
    lemma_all_outside_add(
        mirroring_problems(d, policy) + global_scale_problems(d, policy) + physical_problems_upto(d, mode, n)
            + capability_problems(m, d, n) + mismatch_problems(m, d, n),
        primary_problems(d),
    );
    lemma_all_outside_add(
        mirroring_problems(d, policy) + global_scale_problems(d, policy) + physical_problems_upto(d, mode, n)
            + capability_problems(m, d, n) + mismatch_problems(m, d, n) + primary_problems(d),
        geometry_problems(m, d, mode),
    );
    assert(validate_spec(m, l, policy) =~= a + rest);
    let v = validate_spec(m, l, policy);
    // empty groups
    lemma_contains_add(a, rest, ProblemView::EmptyGroup);
    lemma_outside_not_contains(rest, ProblemView::EmptyGroup);
    lemma_resolution_contains(m, d, mode, n, ProblemView::EmptyGroup);
    if exists|i: int| 0 <= i < n && #[trigger] display_problems(m, d, mode, i).contains(ProblemView::EmptyGroup) {
        let i = choose|i: int| 0 <= i < n && #[trigger] display_problems(m, d, mode, i).contains(ProblemView::EmptyGroup);
        lemma_display_contains(m, d, mode, i);
    }
    if exists|i: int| 0 <= i < n && (#[trigger] d[i]).monitors.len() == 0 {
        let i = choose|i: int| 0 <= i < n && (#[trigger] d[i]).monitors.len() == 0;
        lemma_display_contains(m, d, mode, i);
    }
    assert forall|s: i64| #[trigger] v.contains(invalid_scale_report(s)) <==> s <= 0 && exists|i: int|
        0 <= i < n && (#[trigger] d[i]).scale == s by {
        let x = invalid_scale_report(s);
        lemma_contains_add(a, rest, x);
        lemma_outside_not_contains(rest, x);
        lemma_resolution_contains(m, d, mode, n, x);
        if exists|i: int| 0 <= i < n && #[trigger] display_problems(m, d, mode, i).contains(x) {
            let i = choose|i: int| 0 <= i < n && #[trigger] display_problems(m, d, mode, i).contains(x);
            lemma_display_contains(m, d, mode, i);
            assert(display_problems(m, d, mode, i).contains(x));
        }
        if s <= 0 && exists|i: int| 0 <= i < n && (#[trigger] d[i]).scale == s {
            let i = choose|i: int| 0 <= i < n && (#[trigger] d[i]).scale == s;
            lemma_display_contains(m, d, mode, i);
            assert(display_problems(m, d, mode, i).contains(x));
        }
    }
    assert forall|c: Seq<char>| #[trigger] v.contains(unknown_connector_report(c)) <==> not_connected(m, c) && exists|
        i: int,
    | #[trigger] assigns(d, i, c) by {
        let x = unknown_connector_report(c);
        lemma_contains_add(a, rest, x);
        lemma_outside_not_contains(rest, x);
        lemma_resolution_contains(m, d, mode, n, x);
        if exists|i: int| 0 <= i < n && #[trigger] display_problems(m, d, mode, i).contains(x) {
            let i = choose|i: int| 0 <= i < n && #[trigger] display_problems(m, d, mode, i).contains(x);
            lemma_display_contains(m, d, mode, i);
            assert(display_problems(m, d, mode, i).contains(x));
        }
        if not_connected(m, c) && exists|i: int| #[trigger] assigns(d, i, c) {
            let i = choose|i: int| #[trigger] assigns(d, i, c);
            lemma_display_contains(m, d, mode, i);
            assert(display_problems(m, d, mode, i).contains(x));
        }
    }
    assert forall|c: Seq<char>, id: Seq<char>| #[trigger] v.contains(unknown_mode_report(c, id)) <==> (exists|t: int|
        #[trigger] lacks_mode(m, c, id, t)) && exists|i: int| #[trigger] assigns_mode(d, i, c, id) by {
        let x = unknown_mode_report(c, id);
        lemma_contains_add(a, rest, x);
        lemma_outside_not_contains(rest, x);
        lemma_resolution_contains(m, d, mode, n, x);
        if exists|i: int| 0 <= i < n && #[trigger] display_problems(m, d, mode, i).contains(x) {
            let i = choose|i: int| 0 <= i < n && #[trigger] display_problems(m, d, mode, i).contains(x);
            lemma_display_contains(m, d, mode, i);
            assert(display_problems(m, d, mode, i).contains(x));
        }
        if (exists|t: int| #[trigger] lacks_mode(m, c, id, t)) && exists|i: int| #[trigger] assigns_mode(d, i, c, id) {
            let i = choose|i: int| #[trigger] assigns_mode(d, i, c, id);
            lemma_display_contains(m, d, mode, i);
            assert(display_problems(m, d, mode, i).contains(x));
        }
    }
}

} // verus!
