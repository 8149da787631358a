//! Unsigned grid vectors and the integer arithmetic shared by the modules.

use vstd::prelude::*;

verus! {

/// A pair of unsigned coordinates: a position or an extent on the tile grid.
#[derive(Clone, Copy, Debug, PartialEq, Eq, Hash, Structural)]
pub struct UVec2 {
    pub x: u32,
    pub y: u32,
}

/// A triple of unsigned coordinates: a grid position together with its layer.
#[derive(Clone, Copy, Debug, PartialEq, Eq, Hash, Structural)]
pub struct UVec3 {
    pub x: u32,
    pub y: u32,
    pub z: u32,
}

/// A pair of pixel coordinates, wide enough for any product of a grid size and a tile size.
#[derive(Clone, Copy, Debug, PartialEq, Eq, Hash, Structural)]
pub struct U64Vec2 {
    pub x: u64,
    pub y: u64,
}

/// Pixel coordinates together with a layer.
#[derive(Clone, Copy, Debug, PartialEq, Eq, Hash, Structural)]
pub struct U64Vec3 {
    pub x: u64,
    pub y: u64,
    pub z: u64,
}

impl UVec2 {
    pub fn new(x: u32, y: u32) -> (v: UVec2)
        ensures
            v == (UVec2 { x, y }),
    {
        UVec2 { x, y }
    }

    pub open spec fn spec_extend(self, z: u32) -> UVec3 {
        UVec3 { x: self.x, y: self.y, z }
    }

    /// Appends a third component.
    #[verifier::when_used_as_spec(spec_extend)]
    pub fn extend(self, z: u32) -> (v: UVec3)
        ensures
            v == self.spec_extend(z),
    {
        UVec3 { x: self.x, y: self.y, z }
    }
}

impl UVec3 {
    pub fn new(x: u32, y: u32, z: u32) -> (v: UVec3)
        ensures
            v == (UVec3 { x, y, z }),
    {
        UVec3 { x, y, z }
    }

    pub open spec fn spec_truncate(self) -> UVec2 {
        UVec2 { x: self.x, y: self.y }
    }

    /// Drops the third component.
    #[verifier::when_used_as_spec(spec_truncate)]
    pub fn truncate(self) -> (v: UVec2)
        ensures
            v == self.spec_truncate(),
    {
        UVec2 { x: self.x, y: self.y }
    }
}

/// The number of blocks of `b` cells needed to cover `a` cells: `a / b`, rounded up.
pub open spec fn ceil_div(a: int, b: int) -> int
    recommends
        a >= 0,
        b > 0,
{
    if a % b == 0 {
        a / b
    } else {
        a / b + 1
    }
}

/// A block index `i` lies below `ceil_div(a, b)` exactly when the block's first cell lies
/// below `a`.
pub proof fn lemma_ceil_div_bound(a: int, b: int, i: int)
    requires
        a >= 0,
        b > 0,
        i >= 0,
    ensures
        i < ceil_div(a, b) <==> i * b < a,
        ceil_div(a, b) >= 0,
        ceil_div(a, b) <= a,
{
    assert(i < ceil_div(a, b) <==> i * b < a) by (nonlinear_arith)
        requires
            a >= 0,
            b > 0,
            i >= 0,
            ceil_div(a, b) == (if a % b == 0 { a / b } else { a / b + 1 }),
    {
        assert(a == b * (a / b) + a % b);
        assert(0 <= a % b < b);
    }
    assert(0 <= ceil_div(a, b) <= a) by (nonlinear_arith)
        requires
            a >= 0,
            b > 0,
            ceil_div(a, b) == (if a % b == 0 { a / b } else { a / b + 1 }),
    {
        assert(a == b * (a / b) + a % b);
        assert(0 <= a % b < b);
    }
}

/// `a / b`, rounded up.
pub fn div_ceil(a: u32, b: u32) -> (q: u32)
    requires
        b >= 1,
    ensures
        q == ceil_div(a as int, b as int),
{
    proof {
        lemma_ceil_div_bound(a as int, b as int, 0);
    }
    if a % b == 0 {
        a / b
    } else {
        a / b + 1
    }
}

} // verus!
