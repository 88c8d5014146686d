//! Pure geometry for the layout editor: edge snapping and settling a
//! dropped display so the arrangement stays valid.
//!
//! All functions work in layout coordinates; the editor converts pointer
//! deltas into layout deltas before calling in, so thresholds behave the
//! same at any zoom level.
use vstd::prelude::*;
use crate::geometry::{fits_i32, Rect};
use crate::units::abs_int;

verus! {

/// Axis of a snap guide line.
#[derive(Debug, Clone, Copy, PartialEq, Eq, Structural)]
pub enum Axis {
    /// A vertical guide at `position` (an x coordinate).
    Vertical,
    /// A horizontal guide at `position` (a y coordinate).
    Horizontal,
}

/// A visual alignment guide produced by snapping.
#[derive(Debug, Clone, Copy, PartialEq, Eq, Structural)]
pub struct SnapGuide {
    pub axis: Axis,
    pub position: i32,
}

/// Result of snapping a dragged rectangle.
#[derive(Debug, PartialEq)]
pub struct SnapResult {
    pub x: i32,
    pub y: i32,
    pub guides: Vec<SnapGuide>,
}

/// Horizontal snap candidates against one other rectangle, as
/// `(new x, guide position)`: left to left, left to right, right to left,
/// right to right.
pub open spec fn x_candidates(m: Rect, o: Rect) -> Seq<(int, int)> {
    seq![
        (o.x as int, o.x as int),
        (o.right_int(), o.right_int()),
        (o.x - m.width, o.x as int),
        (o.right_int() - m.width, o.right_int()),
    ]
}

/// Vertical snap candidates against one other rectangle, as
/// `(new y, guide position)`.
pub open spec fn y_candidates(m: Rect, o: Rect) -> Seq<(int, int)> {
    seq![
        (o.y as int, o.y as int),
        (o.bottom_int(), o.bottom_int()),
        (o.y - m.height, o.y as int),
        (o.bottom_int() - m.height, o.bottom_int()),
    ]
}

/// All horizontal candidates, four per other rectangle, in order.
pub open spec fn all_x_candidates(m: Rect, others: Seq<Rect>) -> Seq<(int, int)> {
    Seq::new(4 * others.len(), |k: int| x_candidates(m, others[k / 4])[k % 4])
}

/// All vertical candidates, four per other rectangle, in order.
pub open spec fn all_y_candidates(m: Rect, others: Seq<Rect>) -> Seq<(int, int)> {
    Seq::new(4 * others.len(), |k: int| y_candidates(m, others[k / 4])[k % 4])
}

/// How far candidate `k` is from the current coordinate.
pub open spec fn cand_delta(c: Seq<(int, int)>, cur: int, k: int) -> int {
    abs_int(cur - c[k].0)
}

/// Candidate `k` is the first of the nearest candidates among the first
/// `n`, within the threshold.
pub open spec fn is_best(c: Seq<(int, int)>, cur: int, th: int, n: int, k: int) -> bool {
    &&& 0 <= k < n
    &&& cand_delta(c, cur, k) <= th
    &&& forall|j: int|
        0 <= j < n && cand_delta(c, cur, j) <= th ==> cand_delta(c, cur, k) <= #[trigger] cand_delta(
            c,
            cur,
            j,
        )
    &&& forall|j: int|
        0 <= j < k ==> #[trigger] cand_delta(c, cur, j) > th || cand_delta(c, cur, j) > cand_delta(
            c,
            cur,
            k,
        )
}

/// The winning candidate of an axis, if any lies within the threshold.
pub open spec fn snap_choice(c: Seq<(int, int)>, cur: int, th: int) -> Option<(int, int)> {
    if exists|k: int| is_best(c, cur, th, c.len() as int, k) {
        Some(c[choose|k: int| is_best(c, cur, th, c.len() as int, k)])
    } else {
        None
    }
}

/// The arithmetic of snapping stays in the `i32` range.
pub open spec fn snap_fits(m: Rect, others: Seq<Rect>) -> bool {
    forall|i: int|
        0 <= i < others.len() ==> {
            &&& (#[trigger] others[i]).edges_fit()
            &&& forall|k: int|
                0 <= k < 4 ==> {
                    &&& fits_i32(#[trigger] x_candidates(m, others[i])[k].0)
                    &&& fits_i32(m.x - x_candidates(m, others[i])[k].0)
                    &&& m.x - x_candidates(m, others[i])[k].0 != i32::MIN
                    &&& fits_i32(y_candidates(m, others[i])[k].0)
                    &&& fits_i32(m.y - y_candidates(m, others[i])[k].0)
                    &&& m.y - y_candidates(m, others[i])[k].0 != i32::MIN
                }
        }
}

/// The first of two winners is the only one.
proof fn lemma_best_unique(c: Seq<(int, int)>, cur: int, th: int, n: int, k1: int, k2: int)
    requires
        is_best(c, cur, th, n, k1),
        is_best(c, cur, th, n, k2),
    ensures
        k1 == k2,
{
    if k1 < k2 {
        assert(cand_delta(c, cur, k1) <= cand_delta(c, cur, k2));
    } else if k2 < k1 {
        assert(cand_delta(c, cur, k2) <= cand_delta(c, cur, k1));
    }
}

proof fn lemma_choice_is(c: Seq<(int, int)>, cur: int, th: int, k: int)
    requires
        is_best(c, cur, th, c.len() as int, k),
    ensures
        snap_choice(c, cur, th) == Some(c[k]),
{
    let k2 = choose|k: int| is_best(c, cur, th, c.len() as int, k);
    lemma_best_unique(c, cur, th, c.len() as int, k, k2);
}

proof fn lemma_choice_none(c: Seq<(int, int)>, cur: int, th: int)
    requires
        forall|j: int| 0 <= j < c.len() ==> #[trigger] cand_delta(c, cur, j) > th,
    ensures
        snap_choice(c, cur, th) is None,
{
    if exists|k: int| is_best(c, cur, th, c.len() as int, k) {
        let k = choose|k: int| is_best(c, cur, th, c.len() as int, k);
        assert(cand_delta(c, cur, k) > th);
    }
}

/// Running choice over the first `n` candidates: `None` while nothing is
/// within the threshold, else the winner so far with its distance.
spec fn choice_inv(c: Seq<(int, int)>, cur: int, th: int, n: int, best: Option<(i32, i32, i32)>, k: int) -> bool {
    match best {
        None => forall|j: int| 0 <= j < n ==> #[trigger] cand_delta(c, cur, j) > th,
        Some((d, t, g)) => {
            &&& is_best(c, cur, th, n, k)
            &&& d == cand_delta(c, cur, k)
            &&& (t as int, g as int) == c[k]
        },
    }
}

/// Takes candidate `n` into the running choice.
proof fn lemma_choice_step(
    c: Seq<(int, int)>,
    cur: int,
    th: int,
    n: int,
    best: Option<(i32, i32, i32)>,
    k: int,
    take: bool,
)
    requires
        0 <= n < c.len(),
        choice_inv(c, cur, th, n, best, k),
        fits_i32(cand_delta(c, cur, n)),
        fits_i32(c[n].0),
        fits_i32(c[n].1),
        take == (cand_delta(c, cur, n) <= th && match best {
            None => true,
            Some((d, _, _)) => cand_delta(c, cur, n) < d,
        }),
    ensures
        take ==> choice_inv(
            c,
            cur,
            th,
            n + 1,
            Some((cand_delta(c, cur, n) as i32, c[n].0 as i32, c[n].1 as i32)),
            n,
        ),
        !take ==> choice_inv(c, cur, th, n + 1, best, k),
{
    if take {
        assert forall|j: int|
            0 <= j < n + 1 && cand_delta(c, cur, j) <= th implies cand_delta(c, cur, n) <= #[trigger] cand_delta(
            c,
            cur,
            j,
        ) by {
            if j < n {
                match best {
                    None => {},
                    Some((d, _, _)) => {
                        assert(cand_delta(c, cur, k) <= cand_delta(c, cur, j));
                    },
                }
            }
        }
        assert forall|j: int|
            0 <= j < n implies #[trigger] cand_delta(c, cur, j) > th || cand_delta(c, cur, j) > cand_delta(
            c,
            cur,
            n,
        ) by {
            match best {
                None => {},
                Some((d, _, _)) => {
                    if cand_delta(c, cur, j) <= th {
                        assert(cand_delta(c, cur, k) <= cand_delta(c, cur, j));
                    }
                },
            }
        }
    } else {
        match best {
            None => {},
            Some((d, _, _)) => {
                assert forall|j: int|
                    0 <= j < n + 1 && cand_delta(c, cur, j) <= th implies cand_delta(c, cur, k)
                    <= #[trigger] cand_delta(c, cur, j) by {}
            },
        }
    }
}

/// Candidate `(target, guide)` of an axis: distance from `cur`, taken when
/// within the threshold and strictly nearer than the current choice.
fn consider(best: Option<(i32, i32, i32)>, target: i32, guide: i32, cur: i32, threshold: i32) -> (r: Option<(i32, i32, i32)>)
    requires
        fits_i32(cur - target),
        cur - target != i32::MIN,
    ensures
        ({
            let delta = abs_int(cur - target);
            let take = delta <= threshold && match best {
                None => true,
                Some((d, _, _)) => delta < d,
            };
            r == if take {
                Some((delta as i32, target, guide))
            } else {
                best
            }
        }),
{
    let diff = cur - target;
    let delta = if diff < 0 {
        -diff
    } else {
        diff
    };
    let nearer = match best {
        None => true,
        Some((d, _, _)) => delta < d,
    };
    if delta <= threshold && nearer {
        Some((delta, target, guide))
    } else {
        best
    }
}

proof fn lemma_candidate_index(m: Rect, others: Seq<Rect>, i: int, s: int)
    requires
        0 <= i < others.len(),
        0 <= s < 4,
    ensures
        all_x_candidates(m, others)[4 * i + s] == x_candidates(m, others[i])[s],
        all_y_candidates(m, others)[4 * i + s] == y_candidates(m, others[i])[s],
        0 <= 4 * i + s < 4 * others.len(),
{
    assert((4 * i + s) / 4 == i);
    assert((4 * i + s) % 4 == s);
}

/// Snaps `moving` against the edges of `others`.
///
/// Candidates per axis align the moving rectangle's leading or trailing
/// edge with each other rectangle's leading or trailing edge. The nearest
/// candidate within `threshold` wins per axis (the first one on a tie);
/// axes are independent. Each snapped axis adds a guide, vertical first.
pub fn snap_rect(moving: Rect, others: &[Rect], threshold: i32) -> (r: SnapResult)
    requires
        snap_fits(moving, others@),
    ensures
        ({
            let cx = snap_choice(all_x_candidates(moving, others@), moving.x as int, threshold as int);
            let cy = snap_choice(all_y_candidates(moving, others@), moving.y as int, threshold as int);
            &&& r.x == match cx {
                Some((t, _)) => t,
                None => moving.x as int,
            }
            &&& r.y == match cy {
                Some((t, _)) => t,
                None => moving.y as int,
            }
            &&& r.guides@ == match cx {
                Some((_, g)) => seq![SnapGuide { axis: Axis::Vertical, position: g as i32 }],
                None => Seq::empty(),
            } + match cy {
                Some((_, g)) => seq![SnapGuide { axis: Axis::Horizontal, position: g as i32 }],
                None => Seq::empty(),
            }
        }),
{
    let ghost cx = all_x_candidates(moving, others@);
    let ghost cy = all_y_candidates(moving, others@);
    let ghost cur_x = moving.x as int;
    let ghost cur_y = moving.y as int;
    let ghost th = threshold as int;
    let mut best_x: Option<(i32, i32, i32)> = None;
    let mut best_y: Option<(i32, i32, i32)> = None;
    let ghost mut kx: int = 0;
    let ghost mut ky: int = 0;
    let mut i: usize = 0;
    while i < others.len()
        invariant
            i <= others@.len(),
            snap_fits(moving, others@),
            cx == all_x_candidates(moving, others@),
            cy == all_y_candidates(moving, others@),
            cur_x == moving.x,
            cur_y == moving.y,
            th == threshold,
            cx.len() == 4 * others@.len(),
            cy.len() == 4 * others@.len(),
            choice_inv(cx, cur_x, th, 4 * i, best_x, kx),
            choice_inv(cy, cur_y, th, 4 * i, best_y, ky),
        decreases others@.len() - i,
    {
        let o = others[i];
        assert(o == others@[i as int]);
        assert(o.edges_fit());
        assert(forall|k: int| 0 <= k < 4 ==> fits_i32(#[trigger] x_candidates(moving, o)[k].0));
        assert(fits_i32(x_candidates(moving, o)[2].0) && fits_i32(x_candidates(moving, o)[3].0));
        assert(fits_i32(y_candidates(moving, o)[2].0) && fits_i32(y_candidates(moving, o)[3].0));
        let right = o.x + o.width;
        let bottom = o.y + o.height;
        let xs: [(i32, i32); 4] = [
            (o.x, o.x),
            (right, right),
            (o.x - moving.width, o.x),
            (right - moving.width, right),
        ];
        let ys: [(i32, i32); 4] = [
            (o.y, o.y),
            (bottom, bottom),
            (o.y - moving.height, o.y),
            (bottom - moving.height, bottom),
        ];
        let mut s: usize = 0;
        while s < 4
            invariant
                i < others@.len(),
                o == others@[i as int],
                snap_fits(moving, others@),
                cx == all_x_candidates(moving, others@),
                cy == all_y_candidates(moving, others@),
                cur_x == moving.x,
                cur_y == moving.y,
                th == threshold,
                cx.len() == 4 * others@.len(),
                cy.len() == 4 * others@.len(),
                s <= 4,
                forall|t: int|
                    0 <= t < 4 ==> (#[trigger] xs@[t].0 as int, xs@[t].1 as int) == x_candidates(
                        moving,
                        o,
                    )[t],
                forall|t: int|
                    0 <= t < 4 ==> (#[trigger] ys@[t].0 as int, ys@[t].1 as int) == y_candidates(
                        moving,
                        o,
                    )[t],
                choice_inv(cx, cur_x, th, 4 * i + s, best_x, kx),
                choice_inv(cy, cur_y, th, 4 * i + s, best_y, ky),
            decreases 4 - s,
        {
            proof {
                lemma_candidate_index(moving, others@, i as int, s as int);
                assert(cx[4 * i + s] == x_candidates(moving, o)[s as int]);
                assert(cy[4 * i + s] == y_candidates(moving, o)[s as int]);
                assert(xs@[s as int].0 == x_candidates(moving, o)[s as int].0);
            }
            let (tx, gx) = xs[s];
            let (ty, gy) = ys[s];
            let nx = consider(best_x, tx, gx, moving.x, threshold);
            let ny = consider(best_y, ty, gy, moving.y, threshold);
            proof {
                let n = 4 * i + s;
                lemma_choice_step(
                    cx,
                    cur_x,
                    th,
                    n,
                    best_x,
                    kx,
                    cand_delta(cx, cur_x, n) <= th && match best_x {
                        None => true,
                        Some((d, _, _)) => cand_delta(cx, cur_x, n) < d,
                    },
                );
                lemma_choice_step(
                    cy,
                    cur_y,
                    th,
                    n,
                    best_y,
                    ky,
                    cand_delta(cy, cur_y, n) <= th && match best_y {
                        None => true,
                        Some((d, _, _)) => cand_delta(cy, cur_y, n) < d,
                    },
                );
                if cand_delta(cx, cur_x, n) <= th && match best_x {
                    None => true,
                    Some((d, _, _)) => cand_delta(cx, cur_x, n) < d,
                } {
                    kx = n;
                }
                if cand_delta(cy, cur_y, n) <= th && match best_y {
                    None => true,
                    Some((d, _, _)) => cand_delta(cy, cur_y, n) < d,
                } {
                    ky = n;
                }
            }
            best_x = nx;
            best_y = ny;
            s += 1;
        }
        i += 1;
    }
    let mut guides: Vec<SnapGuide> = Vec::new();
    let x = match best_x {
        Some((_, x, g)) => {
            guides.push(SnapGuide { axis: Axis::Vertical, position: g });
            x
        },
        None => moving.x,
    };
    let y = match best_y {
        Some((_, y, g)) => {
            guides.push(SnapGuide { axis: Axis::Horizontal, position: g });
            y
        },
        None => moving.y,
    };
    proof {
        match best_x {
            Some(_) => lemma_choice_is(cx, cur_x, th, kx),
            None => lemma_choice_none(cx, cur_x, th),
        }
        match best_y {
            Some(_) => lemma_choice_is(cy, cur_y, th, ky),
            None => lemma_choice_none(cy, cur_y, th),
        }
    }
    SnapResult { x, y, guides }
}

/// `v` limited to `lo ..= hi`; `lo` when the range is empty.
pub open spec fn clamp_spec(v: int, lo: int, hi: int) -> int {
    if lo > hi {
        lo
    } else if v < lo {
        lo
    } else if v > hi {
        hi
    } else {
        v
    }
}

/// The rectangle of `m`'s size at `(x, y)`.
pub open spec fn placed(m: Rect, x: int, y: int) -> Rect {
    Rect { x: x as i32, y: y as i32, width: m.width, height: m.height }
}

/// Positions worth trying along one axis of a side: the current position,
/// then, for each other rectangle `q`, the positions just before and just
/// after `q` along that axis (where a slide blocked by `q` ends).
pub open spec fn seg_target(m: Rect, others: Seq<Rect>, vertical: bool, j: int) -> int {
    if j == 0 {
        if vertical { m.y as int } else { m.x as int }
    } else if j % 2 == 1 {
        let q = others[(j - 1) / 2];
        if vertical { q.y - m.height } else { q.x - m.width }
    } else {
        let q = others[(j - 2) / 2];
        if vertical { q.bottom_int() } else { q.right_int() }
    }
}

/// Number of positions tried along each side.
pub open spec fn per_side(others: Seq<Rect>) -> int {
    2 * others.len() as int + 1
}

/// Candidate `j` on side `s` of `others[i]` (left, right, above, below):
/// the target slid along that side, kept within the range where the
/// shared border has positive length.
pub open spec fn attach(m: Rect, others: Seq<Rect>, i: int, s: int, j: int) -> Rect {
    let o = others[i];
    let sy = clamp_spec(seg_target(m, others, true, j), o.y - m.height + 1, o.bottom_int() - 1);
    let sx = clamp_spec(seg_target(m, others, false, j), o.x - m.width + 1, o.right_int() - 1);
    if s == 0 {
        placed(m, o.x - m.width, sy)
    } else if s == 1 {
        placed(m, o.right_int(), sy)
    } else if s == 2 {
        placed(m, sx, o.y - m.height)
    } else {
        placed(m, sx, o.bottom_int())
    }
}

/// All attachment candidates: by other rectangle, then side, then target.
pub open spec fn settle_candidates(m: Rect, others: Seq<Rect>) -> Seq<Rect> {
    let p = per_side(others);
    Seq::new((4 * others.len() * p) as nat, |k: int| attach(m, others, (k / p) / 4, (k / p) % 4, k % p))
}

/// `c` overlaps none of `others`.
pub open spec fn is_free(c: Rect, others: Seq<Rect>) -> bool {
    forall|i: int| 0 <= i < others.len() ==> !c.overlaps_spec(#[trigger] others[i])
}

/// `c` has `m`'s size, overlaps none of `others` and shares a border with
/// one of them: a valid place for the dropped rectangle.
pub open spec fn is_valid_place(c: Rect, m: Rect, others: Seq<Rect>) -> bool {
    &&& c.width == m.width
    &&& c.height == m.height
    &&& is_free(c, others)
    &&& exists|i: int| 0 <= i < others.len() && c.adjacent_spec(#[trigger] others[i])
}

/// Squared distance between the positions of two rectangles.
pub open spec fn dist2(c: Rect, m: Rect) -> int {
    (c.x - m.x) * (c.x - m.x) + (c.y - m.y) * (c.y - m.y)
}

/// Candidate `k` is the first of the nearest free candidates among the
/// first `n`.
pub open spec fn is_nearest_free(cs: Seq<Rect>, others: Seq<Rect>, m: Rect, n: int, k: int) -> bool {
    &&& 0 <= k < n
    &&& is_free(cs[k], others)
    &&& forall|j: int|
        0 <= j < n && is_free(cs[j], others) ==> dist2(cs[k], m) <= #[trigger] dist2(cs[j], m)
    &&& forall|j: int|
        0 <= j < k ==> !is_free(#[trigger] cs[j], others) || dist2(cs[j], m) > dist2(cs[k], m)
}

/// The arrangement with `moving` is not already valid: it overlaps another
/// rectangle or touches none.
pub open spec fn needs_settle(m: Rect, others: Seq<Rect>) -> bool {
    &&& others.len() > 0
    &&& (exists|i: int| 0 <= i < others.len() && m.overlaps_spec(#[trigger] others[i])) || !exists|i: int|
        0 <= i < others.len() && m.adjacent_spec(#[trigger] others[i])
}

/// Where `settle_rect` puts `moving`.
pub open spec fn settled(m: Rect, others: Seq<Rect>) -> Rect {
    let cs = settle_candidates(m, others);
    if !needs_settle(m, others) {
        m
    } else if exists|k: int| is_nearest_free(cs, others, m, cs.len() as int, k) {
        cs[choose|k: int| is_nearest_free(cs, others, m, cs.len() as int, k)]
    } else {
        m
    }
}

/// The sides of every other rectangle lie in the `i32` range for
/// `moving`'s size, so every candidate position is a valid `i32`.
pub open spec fn settle_fits(m: Rect, others: Seq<Rect>) -> bool {
    &&& m.edges_fit()
    &&& forall|i: int| 0 <= i < others.len() ==> (#[trigger] others[i]).edges_fit()
    &&& needs_settle(m, others) ==> forall|i: int|
        0 <= i < others.len() ==> {
            let o = #[trigger] others[i];
            &&& fits_i32(o.y - m.height)
            &&& fits_i32(o.y - m.height + 1)
            &&& fits_i32(o.bottom_int() - 1)
            &&& fits_i32(o.x - m.width)
            &&& fits_i32(o.x - m.width + 1)
            &&& fits_i32(o.right_int() - 1)
        }
}

proof fn lemma_nearest_unique(cs: Seq<Rect>, others: Seq<Rect>, m: Rect, n: int, k1: int, k2: int)
    requires
        is_nearest_free(cs, others, m, n, k1),
        is_nearest_free(cs, others, m, n, k2),
    ensures
        k1 == k2,
{
    if k1 < k2 {
        assert(dist2(cs[k2], m) <= dist2(cs[k1], m));
    } else if k2 < k1 {
        assert(dist2(cs[k1], m) <= dist2(cs[k2], m));
    }
}

/// Running choice over the first `n` candidates.
spec fn nearest_inv(cs: Seq<Rect>, others: Seq<Rect>, m: Rect, n: int, best: Option<(i128, Rect)>, k: int) -> bool {
    match best {
        None => forall|j: int| 0 <= j < n ==> !is_free(#[trigger] cs[j], others),
        Some((d, r)) => {
            &&& is_nearest_free(cs, others, m, n, k)
            &&& d == dist2(cs[k], m)
            &&& r == cs[k]
        },
    }
}

/// Whether `c` overlaps any of `others`.
fn overlaps_any(c: &Rect, others: &[Rect]) -> (r: bool)
    ensures
        r == !is_free(*c, others@),
{
    let mut i: usize = 0;
    while i < others.len()
        invariant
            i <= others@.len(),
            forall|j: int| 0 <= j < i ==> !c.overlaps_spec(#[trigger] others@[j]),
        decreases others@.len() - i,
    {
        if c.overlaps(&others[i]) {
            return true;
        }
        i += 1;
    }
    false
}

/// Whether `c` shares a border with any of `others`.
fn adjacent_any(c: &Rect, others: &[Rect]) -> (r: bool)
    ensures
        r == exists|i: int| 0 <= i < others@.len() && c.adjacent_spec(#[trigger] others@[i]),
{
    let mut i: usize = 0;
    while i < others.len()
        invariant
            i <= others@.len(),
            forall|j: int| 0 <= j < i ==> !c.adjacent_spec(#[trigger] others@[j]),
        decreases others@.len() - i,
    {
        if c.is_adjacent_to(&others[i]) {
            assert(c.adjacent_spec(others@[i as int]));
            return true;
        }
        i += 1;
    }
    false
}

fn clamp(v: i32, lo: i32, hi: i32) -> (r: i32)
    ensures
        r == clamp_spec(v as int, lo as int, hi as int),
{
    if lo > hi {
        lo
    } else if v < lo {
        lo
    } else if v > hi {
        hi
    } else {
        v
    }
}

fn clamp_wide(v: i64, lo: i32, hi: i32) -> (r: i32)
    ensures
        r == clamp_spec(v as int, lo as int, hi as int),
{
    if lo > hi {
        lo
    } else if v < lo as i64 {
        lo
    } else if v > hi as i64 {
        hi
    } else {
        v as i32
    }
}

/// The targets along one axis, as `seg_target` lists them.
fn targets(moving: Rect, others: &[Rect], vertical: bool) -> (r: Vec<i64>)
    requires
        forall|i: int| 0 <= i < others@.len() ==> (#[trigger] others@[i]).edges_fit(),
    ensures
        r@.len() == per_side(others@),
        forall|j: int| 0 <= j < r@.len() ==> #[trigger] r@[j] as int == seg_target(moving, others@, vertical, j),
{
    let mut r: Vec<i64> = Vec::new();
    r.push(if vertical { moving.y as i64 } else { moving.x as i64 });
    let mut t: usize = 0;
    while t < others.len()
        invariant
            t <= others@.len(),
            forall|i: int| 0 <= i < others@.len() ==> (#[trigger] others@[i]).edges_fit(),
            r@.len() == 2 * t + 1,
            forall|j: int| 0 <= j < r@.len() ==> #[trigger] r@[j] as int == seg_target(moving, others@, vertical, j),
        decreases others@.len() - t,
    {
        let q = others[t];
        assert(q.edges_fit());
        if vertical {
            r.push(q.y as i64 - moving.height as i64);
            r.push(q.y as i64 + q.height as i64);
        } else {
            r.push(q.x as i64 - moving.width as i64);
            r.push(q.x as i64 + q.width as i64);
        }
        assert((2 * t + 1 - 1) / 2 == t as int);
        assert((2 * t + 2 - 2) / 2 == t as int);
        assert((2 * t + 1) % 2 == 1);
        assert((2 * t + 2) % 2 == 0);
        t += 1;
    }
    r
}

/// Candidate `(i, s, j)` sits at flat position `(4 i + s) p + j`.
proof fn lemma_attach_index(m: Rect, others: Seq<Rect>, i: int, s: int, j: int)
    requires
        0 <= i < others.len(),
        0 <= s < 4,
        0 <= j < per_side(others),
    ensures
        0 <= (4 * i + s) * per_side(others) + j < settle_candidates(m, others).len(),
        settle_candidates(m, others)[(4 * i + s) * per_side(others) + j] == attach(m, others, i, s, j),
{
    let p = per_side(others);
    let g = 4 * i + s;
    let k = g * p + j;
    assert(0 <= g < 4 * others.len());
    assert(0 <= g * p) by (nonlinear_arith)
        requires
            0 <= g,
            0 <= p,
    ;
    assert(g * p + j < 4 * others.len() * p) by (nonlinear_arith)
        requires
            0 <= g < 4 * others.len(),
            0 <= j < p,
    ;
    vstd::arithmetic::div_mod::lemma_fundamental_div_mod_converse(k, p, g, j);
    vstd::arithmetic::div_mod::lemma_fundamental_div_mod_converse(g, 4, i, s);
}

/// Places a dropped rectangle so the arrangement becomes valid: no overlap
/// with `others` and a shared border with at least one of them. A position
/// that is already valid is kept. Otherwise the result is the nearest free
/// candidate (the first one on a tie), which no valid position beats: the
/// rectangle moves as little as possible. Without any free position the
/// rectangle stays where it is.
pub fn settle_rect(moving: Rect, others: &[Rect]) -> (r: Rect)
    requires
        settle_fits(moving, others@),
    ensures
        r == settled(moving, others@),
        needs_settle(moving, others@) ==> forall|p: Rect|
            #[trigger] is_valid_place(p, moving, others@) ==> is_free(r, others@) && dist2(r, moving) <= dist2(
                p,
                moving,
            ),
{
    let ghost os = others@;
    let ghost cs = settle_candidates(moving, os);
    if others.len() == 0 {
        return moving;
    }
    let overlapping = overlaps_any(&moving, others);
    let adjacent = adjacent_any(&moving, others);
    if !overlapping && adjacent {
        return moving;
    }
    assert(needs_settle(moving, os));
    let vt = targets(moving, others, true);
    let ht = targets(moving, others, false);
    let per = vt.len();
    let mut best: Option<(i128, Rect)> = None;
    let ghost mut bk: int = 0;
    let ghost mut n: int = 0;
    let mut i: usize = 0;
    let mut s: usize = 0;
    let mut j: usize = 0;
    assert((4 * i + s) * per + j == 0) by (nonlinear_arith)
        requires
            i == 0,
            s == 0,
            j == 0,
    ;
    while i < others.len()
        invariant
            os == others@,
            cs == settle_candidates(moving, os),
            per as int == per_side(os),
            vt@.len() == per && ht@.len() == per,
            forall|t: int| 0 <= t < per ==> #[trigger] vt@[t] as int == seg_target(moving, os, true, t),
            forall|t: int| 0 <= t < per ==> #[trigger] ht@[t] as int == seg_target(moving, os, false, t),
            i <= os.len(),
            s < 4,
            j < per,
            i == os.len() ==> s == 0 && j == 0,
            n == (4 * i + s) * per + j,
            settle_fits(moving, os),
            needs_settle(moving, os),
            nearest_inv(cs, os, moving, n, best, bk),
        decreases os.len() - i, 4 - s, per - j,
    {
        let o = others[i];
        assert(o == os[i as int]);
        let right = o.x + o.width;
        let bottom = o.y + o.height;
        let c = if s < 2 {
            let sy = clamp_wide(vt[j], o.y - moving.height + 1, bottom - 1);
            if s == 0 {
                Rect::new(o.x - moving.width, sy, moving.width, moving.height)
            } else {
                Rect::new(right, sy, moving.width, moving.height)
            }
        } else {
            let sx = clamp_wide(ht[j], o.x - moving.width + 1, right - 1);
            if s == 2 {
                Rect::new(sx, o.y - moving.height, moving.width, moving.height)
            } else {
                Rect::new(sx, bottom, moving.width, moving.height)
            }
        };
        proof {
            lemma_attach_index(moving, os, i as int, s as int, j as int);
            assert(c == attach(moving, os, i as int, s as int, j as int));
            assert(c == cs[n]);
        }
        if !overlaps_any(&c, others) {
            let dx: i128 = c.x as i128 - moving.x as i128;
            let dy: i128 = c.y as i128 - moving.y as i128;
            assert(0 <= dx * dx <= 0x1_0000_0000_0000_0000) by (nonlinear_arith)
                requires
                    -0x1_0000_0000 <= dx <= 0x1_0000_0000,
            ;
            assert(0 <= dy * dy <= 0x1_0000_0000_0000_0000) by (nonlinear_arith)
                requires
                    -0x1_0000_0000 <= dy <= 0x1_0000_0000,
            ;
            let dist: i128 = dx * dx + dy * dy;
            assert(dist == dist2(c, moving));
            let nearer = match best {
                None => true,
                Some((d, _)) => dist < d,
            };
            proof {
                if nearer {
                    assert forall|t: int|
                        0 <= t < n + 1 && is_free(cs[t], os) implies dist2(cs[n], moving)
                        <= #[trigger] dist2(cs[t], moving) by {
                        if t < n {
                            match best {
                                None => {},
                                Some((d, _)) => {
                                    assert(dist2(cs[bk], moving) <= dist2(cs[t], moving));
                                },
                            }
                        }
                    }
                    assert forall|t: int| 0 <= t < n implies !is_free(#[trigger] cs[t], os) || dist2(
                        cs[t],
                        moving,
                    ) > dist2(cs[n], moving) by {
                        match best {
                            None => {},
                            Some((d, _)) => {
                                if is_free(cs[t], os) {
                                    assert(dist2(cs[bk], moving) <= dist2(cs[t], moving));
                                }
                            },
                        }
                    }
                    bk = n;
                } else {
                    match best {
                        None => {},
                        Some((d, _)) => {
                            assert forall|t: int|
                                0 <= t < n + 1 && is_free(cs[t], os) implies dist2(cs[bk], moving)
                                <= #[trigger] dist2(cs[t], moving) by {}
                        },
                    }
                }
            }
            if nearer {
                best = Some((dist, c));
            }
        } else {
            proof {
                match best {
                    None => {},
                    Some((d, _)) => {
                        assert forall|t: int|
                            0 <= t < n + 1 && is_free(cs[t], os) implies dist2(cs[bk], moving)
                            <= #[trigger] dist2(cs[t], moving) by {}
                    },
                }
            }
        }
        proof {
            n = n + 1;
        }
        j += 1;
        if j == per {
            j = 0;
            assert((4 * i + s + 1) * per == (4 * i + s) * per + per) by (nonlinear_arith);
            s += 1;
            if s == 4 {
                s = 0;
                i += 1;
            }
        }
    }
    assert(n == 4 * os.len() * per) by (nonlinear_arith)
        requires
            n == (4 * i + s) * per + j,
            i == os.len(),
            s == 0,
            j == 0,
    ;
    assert(cs.len() == n);
    let r = match best {
        Some((_, r)) => {
            proof {
                let k2 = choose|k: int| is_nearest_free(cs, os, moving, cs.len() as int, k);
                lemma_nearest_unique(cs, os, moving, cs.len() as int, bk, k2);
            }
            r
        },
        None => {
            proof {
                if exists|k: int| is_nearest_free(cs, os, moving, cs.len() as int, k) {
                    let k = choose|k: int| is_nearest_free(cs, os, moving, cs.len() as int, k);
                    assert(!is_free(cs[k], os));
                }
            }
            moving
        },
    };
    proof {
        assert forall|p: Rect| #[trigger] is_valid_place(p, moving, os) implies is_free(r, os) && dist2(r, moving)
            <= dist2(p, moving) by {
            lemma_settle_minimal(moving, os, p);
        }
    }
    r
}

proof fn lemma_nearest_exists(cs: Seq<Rect>, others: Seq<Rect>, m: Rect, n: int)
    requires
        0 <= n <= cs.len(),
        exists|j: int| 0 <= j < n && is_free(#[trigger] cs[j], others),
    ensures
        exists|k: int| is_nearest_free(cs, others, m, n, k),
    decreases n,
{
    if exists|j: int| 0 <= j < n - 1 && is_free(#[trigger] cs[j], others) {
        let n1 = n - 1;
        lemma_nearest_exists(cs, others, m, n1);
        let k = choose|k: int| is_nearest_free(cs, others, m, n1, k);
        if is_free(cs[n - 1], others) && dist2(cs[n - 1], m) < dist2(cs[k], m) {
            assert forall|j: int| 0 <= j < n && is_free(cs[j], others) implies dist2(cs[n - 1], m)
                <= #[trigger] dist2(cs[j], m) by {
                if j < n - 1 {
                    assert(dist2(cs[k], m) <= dist2(cs[j], m));
                }
            }
            assert forall|j: int| 0 <= j < n - 1 implies !is_free(#[trigger] cs[j], others) || dist2(cs[j], m)
                > dist2(cs[n - 1], m) by {
                if is_free(cs[j], others) {
                    assert(dist2(cs[k], m) <= dist2(cs[j], m));
                }
            }
            assert(is_nearest_free(cs, others, m, n, n - 1));
        } else {
            assert forall|j: int| 0 <= j < n && is_free(cs[j], others) implies dist2(cs[k], m)
                <= #[trigger] dist2(cs[j], m) by {}
            assert(is_nearest_free(cs, others, m, n, k));
        }
    } else {
        assert(is_free(cs[n - 1], others));
        assert(is_nearest_free(cs, others, m, n, n - 1));
    }
}

/// Moving one step towards the target along an axis brings a position
/// closer.
proof fn lemma_closer(a: int, b: int, t: int, other: int)
    requires
        t <= b < a || a < b <= t,
    ensures
        other * other + (b - t) * (b - t) < other * other + (a - t) * (a - t),
{
    if t <= b && b < a {
        let u = b - t;
        let v = a - t;
        assert(u * u < v * v) by (nonlinear_arith)
            requires
                0 <= u < v,
        ;
    } else {
        let u = t - b;
        let v = t - a;
        assert(u * u < v * v) by (nonlinear_arith)
            requires
                0 <= u < v,
        ;
        assert((b - t) * (b - t) == u * u) by (nonlinear_arith)
            requires
                u == t - b,
        ;
        assert((a - t) * (a - t) == v * v) by (nonlinear_arith)
            requires
                v == t - a,
        ;
    }
}

/// A free position on a left or right side of `others[i]` gives a free
/// candidate of that side that is no farther from `m`.
proof fn lemma_vertical_side(m: Rect, others: Seq<Rect>, i: int, s: int, y: int)
    requires
        settle_fits(m, others),
        needs_settle(m, others),
        0 <= i < others.len(),
        s == 0 || s == 1,
        others[i].y - m.height + 1 <= y <= others[i].bottom_int() - 1,
        is_free(placed(m, if s == 0 { others[i].x - m.width } else { others[i].right_int() }, y), others),
    ensures
        exists|j: int|
            0 <= j < per_side(others) && is_free(#[trigger] attach(m, others, i, s, j), others) && dist2(
                attach(m, others, i, s, j),
                m,
            ) <= dist2(placed(m, if s == 0 { others[i].x - m.width } else { others[i].right_int() }, y), m),
    decreases abs_int(y - clamp_spec(m.y as int, others[i].y - m.height + 1, others[i].bottom_int() - 1)),
{
    let o = others[i];
    let lo = o.y - m.height + 1;
    let hi = o.bottom_int() - 1;
    let x = if s == 0 { o.x - m.width } else { o.right_int() };
    let c = clamp_spec(m.y as int, lo, hi);
    assert(fits_i32(lo) && fits_i32(hi) && fits_i32(x));
    assert(placed(m, x, y).x == x && placed(m, x, y).y == y);
    if y == c {
        assert(attach(m, others, i, s, 0) == placed(m, x, y));
    } else {
        let y1 = if y > c { y - 1 } else { y + 1 };
        assert(placed(m, x, y1).x == x && placed(m, x, y1).y == y1);
        if is_free(placed(m, x, y1), others) {
            lemma_vertical_side(m, others, i, s, y1);
            lemma_closer(y, y1, m.y as int, x - m.x);
        } else {
            let t = choose|t: int| 0 <= t < others.len() && placed(m, x, y1).overlaps_spec(#[trigger] others[t]);
            assert(!placed(m, x, y).overlaps_spec(others[t]));
            let q = others[t];
            if y > c {
                assert(y == q.bottom_int());
                let j = 2 * t + 2;
                assert((j - 2) / 2 == t);
                assert(j % 2 == 0);
                assert(attach(m, others, i, s, j) == placed(m, x, y));
            } else {
                assert(y == q.y - m.height);
                let j = 2 * t + 1;
                assert((j - 1) / 2 == t);
                assert(j % 2 == 1);
                assert(attach(m, others, i, s, j) == placed(m, x, y));
            }
        }
    }
}

/// The same for a top or bottom side.
proof fn lemma_horizontal_side(m: Rect, others: Seq<Rect>, i: int, s: int, x: int)
    requires
        settle_fits(m, others),
        needs_settle(m, others),
        0 <= i < others.len(),
        s == 2 || s == 3,
        others[i].x - m.width + 1 <= x <= others[i].right_int() - 1,
        is_free(placed(m, x, if s == 2 { others[i].y - m.height } else { others[i].bottom_int() }), others),
    ensures
        exists|j: int|
            0 <= j < per_side(others) && is_free(#[trigger] attach(m, others, i, s, j), others) && dist2(
                attach(m, others, i, s, j),
                m,
            ) <= dist2(placed(m, x, if s == 2 { others[i].y - m.height } else { others[i].bottom_int() }), m),
    decreases abs_int(x - clamp_spec(m.x as int, others[i].x - m.width + 1, others[i].right_int() - 1)),
{
    let o = others[i];
    let lo = o.x - m.width + 1;
    let hi = o.right_int() - 1;
    let y = if s == 2 { o.y - m.height } else { o.bottom_int() };
    let c = clamp_spec(m.x as int, lo, hi);
    assert(fits_i32(lo) && fits_i32(hi) && fits_i32(y));
    assert(placed(m, x, y).x == x && placed(m, x, y).y == y);
    if x == c {
        assert(attach(m, others, i, s, 0) == placed(m, x, y));
    } else {
        let x1 = if x > c { x - 1 } else { x + 1 };
        assert(placed(m, x1, y).x == x1 && placed(m, x1, y).y == y);
        if is_free(placed(m, x1, y), others) {
            lemma_horizontal_side(m, others, i, s, x1);
            lemma_closer(x, x1, m.x as int, y - m.y);
            assert(dist2(placed(m, x1, y), m) <= dist2(placed(m, x, y), m));
        } else {
            let t = choose|t: int| 0 <= t < others.len() && placed(m, x1, y).overlaps_spec(#[trigger] others[t]);
            assert(!placed(m, x, y).overlaps_spec(others[t]));
            let q = others[t];
            if x > c {
                assert(x == q.right_int());
                let j = 2 * t + 2;
                assert((j - 2) / 2 == t);
                assert(j % 2 == 0);
                assert(attach(m, others, i, s, j) == placed(m, x, y));
            } else {
                assert(x == q.x - m.width);
                let j = 2 * t + 1;
                assert((j - 1) / 2 == t);
                assert(j % 2 == 1);
                assert(attach(m, others, i, s, j) == placed(m, x, y));
            }
        }
    }
}

/// Any valid place gives a free candidate that is no farther from `m`.
proof fn lemma_candidate_no_farther(m: Rect, others: Seq<Rect>, p: Rect)
    requires
        settle_fits(m, others),
        needs_settle(m, others),
        is_valid_place(p, m, others),
    ensures
        exists|k: int|
            0 <= k < settle_candidates(m, others).len() && is_free(#[trigger] settle_candidates(m, others)[k], others)
                && dist2(settle_candidates(m, others)[k], m) <= dist2(p, m),
{
    let cs = settle_candidates(m, others);
    let i = choose|i: int| 0 <= i < others.len() && p.adjacent_spec(#[trigger] others[i]);
    let o = others[i];
    let (s, j) = if p.x == o.right_int() && !(p.bottom_int() <= o.y || p.y >= o.bottom_int()) {
        assert(p == placed(m, o.right_int(), p.y as int));
        lemma_vertical_side(m, others, i, 1, p.y as int);
        (1int, choose|j: int| 0 <= j < per_side(others) && is_free(#[trigger] attach(m, others, i, 1, j), others)
            && dist2(attach(m, others, i, 1, j), m) <= dist2(placed(m, o.right_int(), p.y as int), m))
    } else if p.right_int() == o.x && !(p.bottom_int() <= o.y || p.y >= o.bottom_int()) {
        assert(p == placed(m, o.x - m.width, p.y as int));
        lemma_vertical_side(m, others, i, 0, p.y as int);
        (0int, choose|j: int| 0 <= j < per_side(others) && is_free(#[trigger] attach(m, others, i, 0, j), others)
            && dist2(attach(m, others, i, 0, j), m) <= dist2(placed(m, o.x - m.width, p.y as int), m))
    } else if p.y == o.bottom_int() {
        assert(p == placed(m, p.x as int, o.bottom_int()));
        lemma_horizontal_side(m, others, i, 3, p.x as int);
        (3int, choose|j: int| 0 <= j < per_side(others) && is_free(#[trigger] attach(m, others, i, 3, j), others)
            && dist2(attach(m, others, i, 3, j), m) <= dist2(placed(m, p.x as int, o.bottom_int()), m))
    } else {
        assert(p.bottom_int() == o.y);
        assert(p == placed(m, p.x as int, o.y - m.height));
        lemma_horizontal_side(m, others, i, 2, p.x as int);
        (2int, choose|j: int| 0 <= j < per_side(others) && is_free(#[trigger] attach(m, others, i, 2, j), others)
            && dist2(attach(m, others, i, 2, j), m) <= dist2(placed(m, p.x as int, o.y - m.height), m))
    };
    lemma_attach_index(m, others, i, s, j);
    let k = (4 * i + s) * per_side(others) + j;
    assert(cs[k] == attach(m, others, i, s, j));
}

/// The settled position is free and no valid place is nearer to where the
/// rectangle was dropped: settling moves it as little as possible.
pub proof fn lemma_settle_minimal(m: Rect, others: Seq<Rect>, p: Rect)
    requires
        settle_fits(m, others),
        needs_settle(m, others),
        is_valid_place(p, m, others),
    ensures
        is_free(settled(m, others), others),
        dist2(settled(m, others), m) <= dist2(p, m),
{
    let cs = settle_candidates(m, others);
    lemma_candidate_no_farther(m, others, p);
    let k = choose|k: int| 0 <= k < cs.len() && is_free(#[trigger] cs[k], others) && dist2(cs[k], m) <= dist2(p, m);
    lemma_nearest_exists(cs, others, m, cs.len() as int);
    let b = choose|b: int| is_nearest_free(cs, others, m, cs.len() as int, b);
    assert(settled(m, others) == cs[b]);
    assert(dist2(cs[b], m) <= dist2(cs[k], m));
}

/// For rectangles of positive size and at least one other rectangle, the
/// settled rectangle overlaps none of the others and shares a border with
/// at least one of them, and a valid position is kept as it is.
pub proof fn lemma_settle_valid(m: Rect, others: Seq<Rect>)
    requires
        settle_fits(m, others),
        others.len() > 0,
        m.width > 0,
        m.height > 0,
        forall|i: int| 0 <= i < others.len() ==> (#[trigger] others[i]).width > 0 && others[i].height > 0,
    ensures
        is_valid_place(settled(m, others), m, others),
        is_valid_place(m, m, others) ==> settled(m, others) == m,
{
    let cs = settle_candidates(m, others);
    if needs_settle(m, others) {
        crate::geometry::lemma_extremes(others);
        let i = choose|i: int| 0 <= i < others.len() && crate::geometry::min_x(others) == #[trigger] others[i].x;
        let o = others[i];
        let y = clamp_spec(m.y as int, o.y - m.height + 1, o.bottom_int() - 1);
        let c = placed(m, o.x - m.width, y);
        assert(c.x == o.x - m.width && c.y == y);
        assert forall|t: int| 0 <= t < others.len() implies !c.overlaps_spec(#[trigger] others[t]) by {
            assert(crate::geometry::min_x(others) <= others[t].x);
        }
        assert(c.adjacent_spec(o));
        assert(is_valid_place(c, m, others));
        lemma_settle_minimal(m, others, c);
        lemma_candidate_no_farther(m, others, c);
        lemma_nearest_exists(cs, others, m, cs.len() as int);
        let b = choose|b: int| is_nearest_free(cs, others, m, cs.len() as int, b);
        assert(settled(m, others) == cs[b]);
        let p = per_side(others);
        let g = b / p;
        let jj = b % p;
        let ii = g / 4;
        let ss = g % 4;
        assert(0 <= b < 4 * others.len() * p);
        assert(0 <= g < 4 * others.len()) by (nonlinear_arith)
            requires
                0 <= b < 4 * others.len() * p,
                p > 0,
                g == b / p,
        ;
        let oo = others[ii];
        assert(oo.width > 0 && oo.height > 0);
        assert(cs[b] == attach(m, others, ii, ss, jj));
        assert(cs[b].adjacent_spec(oo));
    }
}

/// Settling is idempotent: a settled rectangle stays where it is when
/// settled again. With no other rectangles nothing moves.
pub proof fn lemma_settle_idempotent(m: Rect, others: Seq<Rect>)
    requires
        settle_fits(m, others),
        others.len() > 0,
        m.width > 0,
        m.height > 0,
        forall|i: int| 0 <= i < others.len() ==> (#[trigger] others[i]).width > 0 && others[i].height > 0,
    ensures
        settled(settled(m, others), others) == settled(m, others),
        settled(m, Seq::<Rect>::empty()) == m,
{
    lemma_settle_valid(m, others);
    let r = settled(m, others);
    assert(!needs_settle(r, others));
}

/// Snapping moves an axis by at most the threshold, onto a candidate
/// that no other candidate within the threshold beats.
pub proof fn lemma_snap_within_threshold(c: Seq<(int, int)>, cur: int, th: int)
    ensures
        match snap_choice(c, cur, th) {
            Some((t, g)) => {
                &&& abs_int(cur - t) <= th
                &&& forall|j: int|
                    0 <= j < c.len() && #[trigger] cand_delta(c, cur, j) <= th ==> abs_int(cur - t)
                        <= cand_delta(c, cur, j)
            },
            None => forall|j: int| 0 <= j < c.len() ==> #[trigger] cand_delta(c, cur, j) > th,
        },
{
    if exists|k: int| is_best(c, cur, th, c.len() as int, k) {
        let k = choose|k: int| is_best(c, cur, th, c.len() as int, k);
        assert(snap_choice(c, cur, th) == Some(c[k]));
    } else {
        assert forall|j: int| 0 <= j < c.len() implies #[trigger] cand_delta(c, cur, j) > th by {
            if cand_delta(c, cur, j) <= th {
                lemma_first_best(c, cur, th, c.len() as int, j);
            }
        }
    }
}

/// Snapping an axis picks a candidate position nearest to the current
/// one, provided it lies within the threshold; its guide is at the snapped
/// rectangle's leading or trailing edge (`size` away). Without a
/// candidate within the threshold the axis does not move.
pub proof fn lemma_snap_axis(c: Seq<(int, int)>, cur: int, th: int, size: int)
    requires
        forall|k: int| 0 <= k < c.len() ==> (#[trigger] c[k]).1 == c[k].0 || c[k].1 == c[k].0 + size,
    ensures
        match snap_choice(c, cur, th) {
            Some((t, g)) => {
                &&& exists|k: int| 0 <= k < c.len() && #[trigger] c[k] == (t, g)
                &&& abs_int(cur - t) <= th
                &&& forall|j: int| 0 <= j < c.len() ==> abs_int(cur - t) <= #[trigger] cand_delta(c, cur, j)
                &&& g == t || g == t + size
            },
            None => forall|j: int| 0 <= j < c.len() ==> #[trigger] cand_delta(c, cur, j) > th,
        },
{
    lemma_snap_within_threshold(c, cur, th);
    if exists|k: int| is_best(c, cur, th, c.len() as int, k) {
        let k = choose|k: int| is_best(c, cur, th, c.len() as int, k);
        assert(snap_choice(c, cur, th) == Some(c[k]));
        assert forall|j: int| 0 <= j < c.len() implies abs_int(cur - c[k].0) <= #[trigger] cand_delta(c, cur, j) by {}
    }
}

/// Every horizontal candidate puts its guide at the left or right edge of
/// the snapped rectangle, every vertical one at its top or bottom edge.
pub proof fn lemma_guides_on_edges(m: Rect, others: Seq<Rect>)
    ensures
        forall|k: int|
            0 <= k < all_x_candidates(m, others).len() ==> (#[trigger] all_x_candidates(m, others)[k]).1
                == all_x_candidates(m, others)[k].0 || all_x_candidates(m, others)[k].1 == all_x_candidates(
                m,
                others,
            )[k].0 + m.width,
        forall|k: int|
            0 <= k < all_y_candidates(m, others).len() ==> (#[trigger] all_y_candidates(m, others)[k]).1
                == all_y_candidates(m, others)[k].0 || all_y_candidates(m, others)[k].1 == all_y_candidates(
                m,
                others,
            )[k].0 + m.height,
{
    assert forall|k: int| 0 <= k < all_x_candidates(m, others).len() implies (#[trigger] all_x_candidates(m, others)[k]).1
        == all_x_candidates(m, others)[k].0 || all_x_candidates(m, others)[k].1 == all_x_candidates(m, others)[k].0
        + m.width by {
        let s = k % 4;
        assert(0 <= s < 4);
    }
    assert forall|k: int| 0 <= k < all_y_candidates(m, others).len() implies (#[trigger] all_y_candidates(m, others)[k]).1
        == all_y_candidates(m, others)[k].0 || all_y_candidates(m, others)[k].1 == all_y_candidates(m, others)[k].0
        + m.height by {
        let s = k % 4;
        assert(0 <= s < 4);
    }
}

/// Among candidates within the threshold, some is the winner.
proof fn lemma_first_best(c: Seq<(int, int)>, cur: int, th: int, n: int, j: int)
    requires
        0 <= j < n <= c.len(),
        cand_delta(c, cur, j) <= th,
    ensures
        exists|k: int| is_best(c, cur, th, n, k),
    decreases n,
{
    if exists|i: int| 0 <= i < n - 1 && #[trigger] cand_delta(c, cur, i) <= th {
        let i = choose|i: int| 0 <= i < n - 1 && #[trigger] cand_delta(c, cur, i) <= th;
        let n1 = n - 1;
        lemma_first_best(c, cur, th, n1, i);
        let k = choose|k: int| is_best(c, cur, th, n1, k);
        if cand_delta(c, cur, n - 1) <= th && cand_delta(c, cur, n - 1) < cand_delta(c, cur, k) {
            assert forall|q: int| 0 <= q < n && cand_delta(c, cur, q) <= th implies cand_delta(c, cur, n - 1)
                <= #[trigger] cand_delta(c, cur, q) by {
                if q < n - 1 {
                    assert(cand_delta(c, cur, k) <= cand_delta(c, cur, q));
                }
            }
            assert forall|q: int| 0 <= q < n - 1 implies #[trigger] cand_delta(c, cur, q) > th || cand_delta(
                c,
                cur,
                q,
            ) > cand_delta(c, cur, n - 1) by {
                if cand_delta(c, cur, q) <= th {
                    assert(cand_delta(c, cur, k) <= cand_delta(c, cur, q));
                }
            }
            assert(is_best(c, cur, th, n, n - 1));
        } else {
            assert(is_best(c, cur, th, n, k));
        }
    } else {
        assert(j == n - 1);
        assert(is_best(c, cur, th, n, n - 1));
    }
}

/// The four positions of a span of length `size` that put one of its edges
/// on an edge of the span `[start, start + len)`: leading on leading,
/// leading on trailing, trailing on leading, trailing on trailing.
pub open spec fn edge_targets(start: int, len: int, size: int) -> Seq<int> {
    seq![start, start + len, start - size, start + len - size]
}

/// The edge of `[start, start + len)` that target `k` of `edge_targets`
/// lines up with.
pub open spec fn edge_touched(start: int, len: int, k: int) -> int {
    if k % 2 == 0 {
        start
    } else {
        start + len
    }
}

/// Horizontal snapping considers exactly the edge alignments with each
/// other rectangle: whenever putting the moving rectangle's left or right
/// edge on another's left or right edge moves it by at most the threshold,
/// the axis snaps, and by no more than that alignment would; the snapped
/// position is always one such alignment, within the threshold, with its
/// guide on the edge it touches.
pub proof fn lemma_snap_x_targets(m: Rect, others: Seq<Rect>, th: int)
    ensures
        forall|i: int, k: int|
            0 <= i < others.len() && 0 <= k < 4 && abs_int(
                m.x - #[trigger] edge_targets(others[i].x as int, others[i].width as int, m.width as int)[k],
            ) <= th ==> (snap_choice(all_x_candidates(m, others), m.x as int, th) matches Some((t, _)) && abs_int(
                m.x - t,
            ) <= abs_int(m.x - edge_targets(others[i].x as int, others[i].width as int, m.width as int)[k])),
        snap_choice(all_x_candidates(m, others), m.x as int, th) matches Some((t, g)) ==> {
            &&& abs_int(m.x - t) <= th
            &&& exists|i: int, k: int|
                0 <= i < others.len() && 0 <= k < 4 && t == #[trigger] edge_targets(
                    others[i].x as int,
                    others[i].width as int,
                    m.width as int,
                )[k] && g == edge_touched(others[i].x as int, others[i].width as int, k)
        },
{
    let c = all_x_candidates(m, others);
    let cur = m.x as int;
    lemma_snap_within_threshold(c, cur, th);
    assert forall|i: int, k: int|
        0 <= i < others.len() && 0 <= k < 4 && abs_int(
            m.x - #[trigger] edge_targets(others[i].x as int, others[i].width as int, m.width as int)[k],
        ) <= th implies (snap_choice(c, cur, th) matches Some((t, _)) && abs_int(m.x - t) <= abs_int(
        m.x - edge_targets(others[i].x as int, others[i].width as int, m.width as int)[k],
    )) by {
        let j = 4 * i + k;
        assert(j / 4 == i && j % 4 == k) by (nonlinear_arith)
            requires
                j == 4 * i + k,
                0 <= k < 4,
                0 <= i,
        ;
        assert(0 <= j < 4 * others.len()) by (nonlinear_arith)
            requires
                j == 4 * i + k,
                0 <= k < 4,
                0 <= i < others.len(),
        ;
        assert(c[j].0 == edge_targets(others[i].x as int, others[i].width as int, m.width as int)[k]);
        assert(cand_delta(c, cur, j) <= th);
    }
    if let Some((t, g)) = snap_choice(c, cur, th) {
        lemma_guides_on_edges(m, others);
        lemma_snap_axis(c, cur, th, m.width as int);
        let j = choose|j: int| 0 <= j < c.len() && #[trigger] c[j] == (t, g);
        let i = j / 4;
        let k = j % 4;
        assert(0 <= i < others.len() && 0 <= k < 4 && j == 4 * i + k) by (nonlinear_arith)
            requires
                0 <= j < 4 * others.len(),
                i == j / 4,
                k == j % 4,
        ;
        assert(t == edge_targets(others[i].x as int, others[i].width as int, m.width as int)[k]);
        assert(g == edge_touched(others[i].x as int, others[i].width as int, k));
    }
}

/// Vertical snapping considers exactly the edge alignments with each
/// other rectangle: whenever putting the moving rectangle's top or bottom
/// edge on another's top or bottom edge moves it by at most the threshold,
/// the axis snaps, and by no more than that alignment would; the snapped
/// position is always one such alignment, within the threshold, with its
/// guide on the edge it touches.
pub proof fn lemma_snap_y_targets(m: Rect, others: Seq<Rect>, th: int)
    ensures
        forall|i: int, k: int|
            0 <= i < others.len() && 0 <= k < 4 && abs_int(
                m.y - #[trigger] edge_targets(others[i].y as int, others[i].height as int, m.height as int)[k],
            ) <= th ==> (snap_choice(all_y_candidates(m, others), m.y as int, th) matches Some((t, _)) && abs_int(
                m.y - t,
            ) <= abs_int(m.y - edge_targets(others[i].y as int, others[i].height as int, m.height as int)[k])),
        snap_choice(all_y_candidates(m, others), m.y as int, th) matches Some((t, g)) ==> {
            &&& abs_int(m.y - t) <= th
            &&& exists|i: int, k: int|
                0 <= i < others.len() && 0 <= k < 4 && t == #[trigger] edge_targets(
                    others[i].y as int,
                    others[i].height as int,
                    m.height as int,
                )[k] && g == edge_touched(others[i].y as int, others[i].height as int, k)
        },
{
    let c = all_y_candidates(m, others);
    let cur = m.y as int;
    lemma_snap_within_threshold(c, cur, th);
    assert forall|i: int, k: int|
        0 <= i < others.len() && 0 <= k < 4 && abs_int(
            m.y - #[trigger] edge_targets(others[i].y as int, others[i].height as int, m.height as int)[k],
        ) <= th implies (snap_choice(c, cur, th) matches Some((t, _)) && abs_int(m.y - t) <= abs_int(
        m.y - edge_targets(others[i].y as int, others[i].height as int, m.height as int)[k],
    )) by {
        let j = 4 * i + k;
        assert(j / 4 == i && j % 4 == k) by (nonlinear_arith)
            requires
                j == 4 * i + k,
                0 <= k < 4,
                0 <= i,
        ;
        assert(0 <= j < 4 * others.len()) by (nonlinear_arith)
            requires
                j == 4 * i + k,
                0 <= k < 4,
                0 <= i < others.len(),
        ;
        assert(c[j].0 == edge_targets(others[i].y as int, others[i].height as int, m.height as int)[k]);
        assert(cand_delta(c, cur, j) <= th);
    }
    if let Some((t, g)) = snap_choice(c, cur, th) {
        lemma_guides_on_edges(m, others);
        lemma_snap_axis(c, cur, th, m.height as int);
        let j = choose|j: int| 0 <= j < c.len() && #[trigger] c[j] == (t, g);
        let i = j / 4;
        let k = j % 4;
        assert(0 <= i < others.len() && 0 <= k < 4 && j == 4 * i + k) by (nonlinear_arith)
            requires
                0 <= j < 4 * others.len(),
                i == j / 4,
                k == j % 4,
        ;
        assert(t == edge_targets(others[i].y as int, others[i].height as int, m.height as int)[k]);
        assert(g == edge_touched(others[i].y as int, others[i].height as int, k));
    }
}

} // verus!
