//! Integer rectangle geometry in layout coordinate space.
//!
//! Edges are reasoned about as mathematical integers: `right()` and
//! `bottom()` can exceed the `i32` range, so the relations below are
//! computed in 64-bit arithmetic and never overflow.
use vstd::prelude::*;

verus! {

/// An axis-aligned rectangle in layout coordinates.
#[derive(Debug, Clone, Copy, PartialEq, Eq, Hash)]
pub struct Rect {
    pub x: i32,
    pub y: i32,
    pub width: i32,
    pub height: i32,
}

/// `v` lies in the `i32` range.
pub open spec fn fits_i32(v: int) -> bool {
    i32::MIN <= v <= i32::MAX
}

impl Rect {
    /// Right edge (exclusive), as a mathematical integer.
    pub open spec fn right_int(self) -> int {
        self.x + self.width
    }

    /// Bottom edge (exclusive), as a mathematical integer.
    pub open spec fn bottom_int(self) -> int {
        self.y + self.height
    }

    /// The interiors of the two rectangles intersect.
    pub open spec fn overlaps_spec(self, other: Rect) -> bool {
        &&& self.x < other.right_int()
        &&& other.x < self.right_int()
        &&& self.y < other.bottom_int()
        &&& other.y < self.bottom_int()
    }

    /// Mutter 50's adjacency: a shared border of positive length; touching
    /// only at a corner does not count.
    pub open spec fn adjacent_spec(self, other: Rect) -> bool {
        let (x1, y1, x2, y2) = (self.x as int, self.y as int, self.right_int(), self.bottom_int());
        let (ox1, oy1, ox2, oy2) = (other.x as int, other.y as int, other.right_int(), other.bottom_int());
        ||| (x1 == ox2 || x2 == ox1) && !(y2 <= oy1 || y1 >= oy2)
        ||| (y1 == oy2 || y2 == oy1) && !(x2 <= ox1 || x1 >= ox2)
    }

    /// Both edges lie in the `i32` range.
    pub open spec fn edges_fit(self) -> bool {
        fits_i32(self.right_int()) && fits_i32(self.bottom_int())
    }

    pub fn new(x: i32, y: i32, width: i32, height: i32) -> (r: Rect)
        ensures
            r == (Rect { x, y, width, height }),
    {
        Rect { x, y, width, height }
    }

    pub fn right(&self) -> (r: i32)
        requires
            fits_i32(self.right_int()),
        ensures
            r == self.right_int(),
    {
        self.x + self.width
    }

    pub fn bottom(&self) -> (r: i32)
        requires
            fits_i32(self.bottom_int()),
        ensures
            r == self.bottom_int(),
    {
        self.y + self.height
    }

    /// True if the interiors of the two rectangles intersect. Rectangles that
    /// merely share an edge do not overlap.
    pub fn overlaps(&self, other: &Rect) -> (r: bool)
        ensures
            r == self.overlaps_spec(*other),
    {
        let sx = self.x as i64;
        let sy = self.y as i64;
        let ox = other.x as i64;
        let oy = other.y as i64;
        sx < ox + other.width as i64 && ox < sx + self.width as i64 && sy < oy
            + other.height as i64 && oy < sy + self.height as i64
    }

    /// Mutter 50's adjacency rule: two rectangles are adjacent when they
    /// share a border of positive length. Touching only at a corner does
    /// not count.
    pub fn is_adjacent_to(&self, other: &Rect) -> (r: bool)
        ensures
            r == self.adjacent_spec(*other),
    {
        let x1 = self.x as i64;
        let y1 = self.y as i64;
        let x2 = self.x as i64 + self.width as i64;
        let y2 = self.y as i64 + self.height as i64;
        let ox1 = other.x as i64;
        let oy1 = other.y as i64;
        let ox2 = other.x as i64 + other.width as i64;
        let oy2 = other.y as i64 + other.height as i64;
        if (x1 == ox2 || x2 == ox1) && !(y2 <= oy1 || y1 >= oy2) {
            true
        } else {
            (y1 == oy2 || y2 == oy1) && !(x2 <= ox1 || x1 >= ox2)
        }
    }

    pub fn translated(&self, dx: i32, dy: i32) -> (r: Rect)
        requires
            fits_i32(self.x + dx),
            fits_i32(self.y + dy),
        ensures
            r == (Rect { x: (self.x + dx) as i32, y: (self.y + dy) as i32, ..*self }),
    {
        Rect::new(self.x + dx, self.y + dy, self.width, self.height)
    }

    pub fn contains(&self, px: i32, py: i32) -> (r: bool)
        ensures
            r == (self.x <= px < self.right_int() && self.y <= py < self.bottom_int()),
    {
        let px = px as i64;
        let py = py as i64;
        px >= self.x as i64 && px < self.x as i64 + self.width as i64 && py >= self.y as i64 && py
            < self.y as i64 + self.height as i64
    }

    /// Centre point, halving the size with truncation toward zero.
    pub fn center(&self) -> (r: (i32, i32))
        requires
            fits_i32(self.x + half_toward_zero(self.width as int)),
            fits_i32(self.y + half_toward_zero(self.height as int)),
        ensures
            r.0 == self.x + half_toward_zero(self.width as int),
            r.1 == self.y + half_toward_zero(self.height as int),
    {
        (self.x + halve_i32(self.width), self.y + halve_i32(self.height))
    }
}

/// Halving with truncation toward zero (Rust's integer division by 2).
pub open spec fn half_toward_zero(v: int) -> int {
    if v >= 0 {
        v / 2
    } else {
        -((-v) / 2)
    }
}

fn halve_i32(v: i32) -> (r: i32)
    ensures
        r == half_toward_zero(v as int),
{
    if v >= 0 {
        v / 2
    } else {
        let m: i64 = -(v as i64);
        -((m / 2) as i32)
    }
}

/// Smallest left edge among `rects` (which must be non-empty).
pub open spec fn min_x(rects: Seq<Rect>) -> int
    recommends
        rects.len() > 0,
    decreases rects.len(),
{
    if rects.len() <= 1 {
        rects[0].x as int
    } else {
        let m = min_x(rects.drop_last());
        if rects.last().x < m {
            rects.last().x as int
        } else {
            m
        }
    }
}

/// Smallest top edge among `rects`.
pub open spec fn min_y(rects: Seq<Rect>) -> int
    recommends
        rects.len() > 0,
    decreases rects.len(),
{
    if rects.len() <= 1 {
        rects[0].y as int
    } else {
        let m = min_y(rects.drop_last());
        if rects.last().y < m {
            rects.last().y as int
        } else {
            m
        }
    }
}

/// Largest right edge among `rects`.
pub open spec fn max_right(rects: Seq<Rect>) -> int
    recommends
        rects.len() > 0,
    decreases rects.len(),
{
    if rects.len() <= 1 {
        rects[0].right_int()
    } else {
        let m = max_right(rects.drop_last());
        if rects.last().right_int() > m {
            rects.last().right_int()
        } else {
            m
        }
    }
}

/// Largest bottom edge among `rects`.
pub open spec fn max_bottom(rects: Seq<Rect>) -> int
    recommends
        rects.len() > 0,
    decreases rects.len(),
{
    if rects.len() <= 1 {
        rects[0].bottom_int()
    } else {
        let m = max_bottom(rects.drop_last());
        if rects.last().bottom_int() > m {
            rects.last().bottom_int()
        } else {
            m
        }
    }
}

/// The extremes are attained by some rectangle and bound all of them.
pub proof fn lemma_extremes(rects: Seq<Rect>)
    requires
        rects.len() > 0,
    ensures
        forall|i: int|
            #![trigger rects[i]]
            0 <= i < rects.len() ==> {
                &&& min_x(rects) <= rects[i].x
                &&& min_y(rects) <= rects[i].y
                &&& max_right(rects) >= rects[i].right_int()
                &&& max_bottom(rects) >= rects[i].bottom_int()
            },
        exists|i: int| 0 <= i < rects.len() && min_x(rects) == #[trigger] rects[i].x,
        exists|i: int| 0 <= i < rects.len() && min_y(rects) == #[trigger] rects[i].y,
    decreases rects.len(),
{
    if rects.len() > 1 {
        let init = rects.drop_last();
        lemma_extremes(init);
        assert forall|i: int| 0 <= i < rects.len() - 1 implies rects[i] == #[trigger] init[i] by {}
        assert forall|i: int| 0 <= i < rects.len() implies min_x(rects) <= #[trigger] rects[i].x
            && min_y(rects) <= rects[i].y && max_right(rects) >= rects[i].right_int()
            && max_bottom(rects) >= rects[i].bottom_int() by {
            if i < rects.len() - 1 {
                assert(rects[i] == init[i]);
            }
        }
        let ix = choose|i: int| 0 <= i < init.len() && min_x(init) == #[trigger] init[i].x;
        let iy = choose|i: int| 0 <= i < init.len() && min_y(init) == #[trigger] init[i].y;
        if rects.last().x < min_x(init) {
            assert(min_x(rects) == rects[rects.len() - 1].x);
        } else {
            assert(min_x(rects) == rects[ix].x);
        }
        if rects.last().y < min_y(init) {
            assert(min_y(rects) == rects[rects.len() - 1].y);
        } else {
            assert(min_y(rects) == rects[iy].y);
        }
    } else {
        assert(min_x(rects) == rects[0].x);
        assert(min_y(rects) == rects[0].y);
    }
}

/// The bounding box of `rects`, as mathematical edges.
pub open spec fn bounding_box_spec(rects: Seq<Rect>) -> Option<(int, int, int, int)> {
    if rects.len() == 0 {
        None
    } else {
        Some((min_x(rects), min_y(rects), max_right(rects), max_bottom(rects)))
    }
}

/// The bounding box can be stored as a `Rect`.
pub open spec fn bounding_box_fits(rects: Seq<Rect>) -> bool {
    rects.len() > 0 ==> {
        &&& fits_i32(max_right(rects) - min_x(rects))
        &&& fits_i32(max_bottom(rects) - min_y(rects))
    }
}

/// Top-left corner of the bounding box of `rects`, computed without
/// overflow.
pub fn bounding_origin(rects: &[Rect]) -> (r: Option<(i32, i32)>)
    ensures
        rects@.len() == 0 ==> r is None,
        rects@.len() > 0 ==> r == Some((min_x(rects@) as i32, min_y(rects@) as i32)),
{
    if rects.len() == 0 {
        return None;
    }
    let mut x1 = rects[0].x;
    let mut y1 = rects[0].y;
    let mut i: usize = 1;
    while i < rects.len()
        invariant
            1 <= i <= rects@.len(),
            x1 == min_x(rects@.subrange(0, i as int)),
            y1 == min_y(rects@.subrange(0, i as int)),
        decreases rects@.len() - i,
    {
        let ghost prev = rects@.subrange(0, i as int);
        let ghost next = rects@.subrange(0, i as int + 1);
        assert(next.drop_last() =~= prev);
        if rects[i].x < x1 {
            x1 = rects[i].x;
        }
        if rects[i].y < y1 {
            y1 = rects[i].y;
        }
        i += 1;
    }
    assert(rects@.subrange(0, rects@.len() as int) =~= rects@);
    Some((x1, y1))
}

/// Smallest rectangle containing all given rectangles.
pub fn bounding_box(rects: &[Rect]) -> (r: Option<Rect>)
    requires
        bounding_box_fits(rects@),
    ensures
        match bounding_box_spec(rects@) {
            None => r is None,
            Some((x1, y1, x2, y2)) => r == Some(
                Rect {
                    x: x1 as i32,
                    y: y1 as i32,
                    width: (x2 - x1) as i32,
                    height: (y2 - y1) as i32,
                },
            ),
        },
{
    if rects.len() == 0 {
        return None;
    }
    let mut x1: i64 = rects[0].x as i64;
    let mut y1: i64 = rects[0].y as i64;
    let mut x2: i64 = rects[0].x as i64 + rects[0].width as i64;
    let mut y2: i64 = rects[0].y as i64 + rects[0].height as i64;
    let mut i: usize = 1;
    while i < rects.len()
        invariant
            1 <= i <= rects@.len(),
            x1 == min_x(rects@.subrange(0, i as int)),
            y1 == min_y(rects@.subrange(0, i as int)),
            x2 == max_right(rects@.subrange(0, i as int)),
            y2 == max_bottom(rects@.subrange(0, i as int)),
            i32::MIN <= x1 <= i32::MAX,
            i32::MIN <= y1 <= i32::MAX,
            2 * i32::MIN <= x2 <= 2 * i32::MAX,
            2 * i32::MIN <= y2 <= 2 * i32::MAX,
        decreases rects@.len() - i,
    {
        let ghost prev = rects@.subrange(0, i as int);
        let ghost next = rects@.subrange(0, i as int + 1);
        assert(next.drop_last() =~= prev);
        let r = rects[i];
        if (r.x as i64) < x1 {
            x1 = r.x as i64;
        }
        if (r.y as i64) < y1 {
            y1 = r.y as i64;
        }
        if r.x as i64 + r.width as i64 > x2 {
            x2 = r.x as i64 + r.width as i64;
        }
        if r.y as i64 + r.height as i64 > y2 {
            y2 = r.y as i64 + r.height as i64;
        }
        i += 1;
    }
    assert(rects@.subrange(0, rects@.len() as int) =~= rects@);
    Some(Rect::new(x1 as i32, y1 as i32, (x2 - x1) as i32, (y2 - y1) as i32))
}

/// Overlap is symmetric.
pub proof fn lemma_overlap_symmetric(a: Rect, b: Rect)
    ensures
        a.overlaps_spec(b) == b.overlaps_spec(a),
{
}

/// Adjacency is symmetric.
pub proof fn lemma_adjacent_symmetric(a: Rect, b: Rect)
    ensures
        a.adjacent_spec(b) == b.adjacent_spec(a),
{
}

/// Rectangles that share a border never overlap.
pub proof fn lemma_adjacent_not_overlapping(a: Rect, b: Rect)
    requires
        a.adjacent_spec(b),
    ensures
        !a.overlaps_spec(b),
{
}

/// Moving two rectangles by the same offset keeps overlap and adjacency.
pub proof fn lemma_translation_invariant(a: Rect, b: Rect, dx: int, dy: int)
    requires
        fits_i32(a.x + dx),
        fits_i32(a.y + dy),
        fits_i32(b.x + dx),
        fits_i32(b.y + dy),
    ensures
        ({
            let a2 = Rect { x: (a.x + dx) as i32, y: (a.y + dy) as i32, ..a };
            let b2 = Rect { x: (b.x + dx) as i32, y: (b.y + dy) as i32, ..b };
            &&& a2.overlaps_spec(b2) == a.overlaps_spec(b)
            &&& a2.adjacent_spec(b2) == a.adjacent_spec(b)
        }),
{
}

} // verus!
