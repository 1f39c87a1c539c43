//! Placement of a cell instance in hierarchical LVS: a Manhattan transform
//! and an instance array.
use vstd::prelude::*;

verus! {

/// Maps `(x, y)` to `(xx * x + xy * y + dx, yx * x + yy * y + dy)`.
#[derive(Debug, Clone, Copy, PartialEq, Eq, Structural)]
pub struct HierTransform {
    pub xx: i8,
    pub xy: i8,
    pub yx: i8,
    pub yy: i8,
    pub dx: i64,
    pub dy: i64,
}

impl Default for HierTransform {
    /// The identity.
    fn default() -> (t: HierTransform)
        ensures
            t == (HierTransform { xx: 1, xy: 0, yx: 0, yy: 1, dx: 0, dy: 0 }),
    {
        HierTransform { xx: 1, xy: 0, yx: 0, yy: 1, dx: 0, dy: 0 }
    }
}

impl HierTransform {
    pub open spec fn det(self) -> int {
        self.xx * self.yy - self.xy * self.yx
    }

    /// Entries in `-1..=1` and determinant `±1`.
    pub open spec fn valid_spec(self) -> bool {
        &&& (self.det() == 1 || self.det() == -1)
        &&& -1 <= self.xx <= 1
        &&& -1 <= self.xy <= 1
        &&& -1 <= self.yx <= 1
        &&& -1 <= self.yy <= 1
    }

    /// Whether the linear part is a Manhattan rotation, possibly mirrored.
    pub fn valid(self) -> (b: bool)
        ensures
            b == self.valid_spec(),
    {
        let (xx, xy, yx, yy) = (self.xx as i16, self.xy as i16, self.yx as i16, self.yy as i16);
        assert(-16256 <= xx * yy <= 16384 && -16256 <= xy * yx <= 16384) by (nonlinear_arith)
            requires
                -128 <= xx <= 127,
                -128 <= xy <= 127,
                -128 <= yx <= 127,
                -128 <= yy <= 127,
        ;
        let det: i16 = xx * yy - xy * yx;
        (det == 1 || det == -1) && -1 <= self.xx && self.xx <= 1 && -1 <= self.xy && self.xy <= 1
            && -1 <= self.yx && self.yx <= 1 && -1 <= self.yy && self.yy <= 1
    }
}

/// The linear part is one of the eight rotations by a multiple of 90 degrees,
/// with or without a mirror.
pub open spec fn manhattan(t: HierTransform) -> bool {
    ||| (t.xy == 0 && t.yx == 0 && (t.xx == 1 || t.xx == -1) && (t.yy == 1 || t.yy == -1))
    ||| (t.xx == 0 && t.yy == 0 && (t.xy == 1 || t.xy == -1) && (t.yx == 1 || t.yx == -1))
}

proof fn lemma_unit_product(a: int, b: int)
    requires
        -1 <= a <= 1,
        -1 <= b <= 1,
    ensures
        a * b == if a == 0 || b == 0 { 0 } else if a == b { 1 } else { -1 },
{
    if a == 0 {
        assert(a * b == 0) by (nonlinear_arith)
            requires
                a == 0,
        ;
    } else if a == 1 {
        assert(a * b == b) by (nonlinear_arith)
            requires
                a == 1,
        ;
    } else {
        assert(a * b == -b) by (nonlinear_arith)
            requires
                a == -1,
        ;
    }
}

pub open spec fn nonzero_entries(t: HierTransform) -> int {
    (if t.xx != 0 { 1int } else { 0 }) + (if t.xy != 0 { 1int } else { 0 }) + (if t.yx != 0 { 1int } else { 0 })
        + (if t.yy != 0 { 1int } else { 0 })
}

/// A transform with other than three non-zero entries is valid exactly when
/// it is one of the eight Manhattan orientations. (With three non-zero
/// entries the determinant can still be 1, as for the shear `xx = 1, xy = 0,
/// yx = 1, yy = 1`, which `valid` accepts.)
pub proof fn lemma_valid_is_manhattan(t: HierTransform)
    requires
        nonzero_entries(t) != 3,
    ensures
        t.valid_spec() <==> manhattan(t),
{
    if -1 <= t.xx <= 1 && -1 <= t.xy <= 1 && -1 <= t.yx <= 1 && -1 <= t.yy <= 1 {
        lemma_unit_product(t.xx as int, t.yy as int);
        lemma_unit_product(t.xy as int, t.yx as int);
    }
}

/// An instance array: `columns x rows` copies, stepped by `column_step` and
/// `row_step`.
#[derive(Debug, Clone, Copy, PartialEq, Eq)]
pub struct HierArray {
    pub columns: u32,
    pub rows: u32,
    pub column_step: (i64, i64),
    pub row_step: (i64, i64),
}

impl Default for HierArray {
    /// A single copy.
    fn default() -> (a: HierArray)
        ensures
            a == (HierArray { columns: 1, rows: 1, column_step: (0, 0), row_step: (0, 0) }),
    {
        HierArray { columns: 1, rows: 1, column_step: (0, 0), row_step: (0, 0) }
    }
}

} // verus!
