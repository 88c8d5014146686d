//! Monitor transforms (rotation / reflection), matching Mutter's numbering.
use vstd::prelude::*;

verus! {

/// Viewport transform of a logical display. The `u32` values are the wire
/// representation used by `org.gnome.Mutter.DisplayConfig`.
#[derive(Debug, Clone, Copy, PartialEq, Eq, Structural, PartialOrd, Ord, Hash)]
pub enum Transform {
    Normal,
    Rotate90,
    Rotate180,
    Rotate270,
    Flipped,
    Flipped90,
    Flipped180,
    Flipped270,
}

impl Default for Transform {
    fn default() -> (r: Transform)
        ensures
            r == Transform::Normal,
    {
        Transform::Normal
    }
}

/// Wire value of each transform.
pub open spec fn transform_wire(t: Transform) -> u32 {
    match t {
        Transform::Normal => 0,
        Transform::Rotate90 => 1,
        Transform::Rotate180 => 2,
        Transform::Rotate270 => 3,
        Transform::Flipped => 4,
        Transform::Flipped90 => 5,
        Transform::Flipped180 => 6,
        Transform::Flipped270 => 7,
    }
}

/// Transform for a wire value, if it names one.
pub open spec fn transform_from_wire(v: u32) -> Option<Transform> {
    if v == 0 {
        Some(Transform::Normal)
    } else if v == 1 {
        Some(Transform::Rotate90)
    } else if v == 2 {
        Some(Transform::Rotate180)
    } else if v == 3 {
        Some(Transform::Rotate270)
    } else if v == 4 {
        Some(Transform::Flipped)
    } else if v == 5 {
        Some(Transform::Flipped90)
    } else if v == 6 {
        Some(Transform::Flipped180)
    } else if v == 7 {
        Some(Transform::Flipped270)
    } else {
        None
    }
}

/// Whether the transform exchanges width and height.
pub open spec fn swaps(t: Transform) -> bool {
    t == Transform::Rotate90 || t == Transform::Rotate270 || t == Transform::Flipped90 || t
        == Transform::Flipped270
}

/// A mode size after the transform.
pub open spec fn transformed(t: Transform, width: i32, height: i32) -> (i32, i32) {
    if swaps(t) {
        (height, width)
    } else {
        (width, height)
    }
}

/// gdctl's technical name of each transform.
pub open spec fn transform_name(t: Transform) -> Seq<char> {
    match t {
        Transform::Normal => "normal"@,
        Transform::Rotate90 => "90"@,
        Transform::Rotate180 => "180"@,
        Transform::Rotate270 => "270"@,
        Transform::Flipped => "flipped"@,
        Transform::Flipped90 => "flipped-90"@,
        Transform::Flipped180 => "flipped-180"@,
        Transform::Flipped270 => "flipped-270"@,
    }
}

impl Transform {
    /// All eight transforms, in wire order.
    pub fn all() -> (r: [Transform; 8])
        ensures
            forall|i: int| 0 <= i < 8 ==> transform_wire(#[trigger] r@[i]) == i,
    {
        [
            Transform::Normal,
            Transform::Rotate90,
            Transform::Rotate180,
            Transform::Rotate270,
            Transform::Flipped,
            Transform::Flipped90,
            Transform::Flipped180,
            Transform::Flipped270,
        ]
    }

    /// The four transforms GNOME Settings exposes in its orientation control.
    pub fn basic() -> (r: [Transform; 4])
        ensures
            forall|i: int| 0 <= i < 4 ==> transform_wire(#[trigger] r@[i]) == i,
    {
        [Transform::Normal, Transform::Rotate90, Transform::Rotate180, Transform::Rotate270]
    }

    pub fn as_u32(self) -> (r: u32)
        ensures
            r == transform_wire(self),
    {
        match self {
            Transform::Normal => 0,
            Transform::Rotate90 => 1,
            Transform::Rotate180 => 2,
            Transform::Rotate270 => 3,
            Transform::Flipped => 4,
            Transform::Flipped90 => 5,
            Transform::Flipped180 => 6,
            Transform::Flipped270 => 7,
        }
    }

    pub fn from_u32(value: u32) -> (r: Option<Transform>)
        ensures
            r == transform_from_wire(value),
    {
        match value {
            0 => Some(Transform::Normal),
            1 => Some(Transform::Rotate90),
            2 => Some(Transform::Rotate180),
            3 => Some(Transform::Rotate270),
            4 => Some(Transform::Flipped),
            5 => Some(Transform::Flipped90),
            6 => Some(Transform::Flipped180),
            7 => Some(Transform::Flipped270),
            _ => None,
        }
    }

    /// Whether the transform exchanges width and height.
    pub fn swaps_dimensions(self) -> (r: bool)
        ensures
            r == swaps(self),
    {
        matches!(
            self,
            Transform::Rotate90 | Transform::Rotate270 | Transform::Flipped90
                | Transform::Flipped270
        )
    }

    /// Applies the transform to a mode size.
    pub fn apply_to(self, width: i32, height: i32) -> (r: (i32, i32))
        ensures
            r == transformed(self, width, height),
    {
        if self.swaps_dimensions() {
            (height, width)
        } else {
            (width, height)
        }
    }

    /// Technical name as used by gdctl and profile files.
    pub fn name(self) -> (r: &'static str)
        ensures
            r@ == transform_name(self),
    {
        match self {
            Transform::Normal => "normal",
            Transform::Rotate90 => "90",
            Transform::Rotate180 => "180",
            Transform::Rotate270 => "270",
            Transform::Flipped => "flipped",
            Transform::Flipped90 => "flipped-90",
            Transform::Flipped270 => "flipped-270",
            Transform::Flipped180 => "flipped-180",
        }
    }
}

/// Every transform survives the trip through its wire value, and the wire
/// values are exactly 0 through 7.
pub proof fn lemma_transform_wire_roundtrip(t: Transform, v: u32)
    ensures
        transform_from_wire(transform_wire(t)) == Some(t),
        transform_wire(t) < 8,
        transform_from_wire(v) is Some <==> v < 8,
        transform_from_wire(v) matches Some(u) ==> transform_wire(u) == v,
{
}

/// Applying a transform's size change twice gives back the original size.
pub proof fn lemma_transform_involutive(t: Transform, width: i32, height: i32)
    ensures
        ({
            let (w2, h2) = transformed(t, width, height);
            transformed(t, w2, h2) == (width, height)
        }),
{
}

} // verus!
