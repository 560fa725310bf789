//! Points and boxes in the world, in blocks.

use vstd::prelude::*;
use crate::binary64::F64;
use crate::binary64::cast;

verus! {

/// A block position in the plane.
#[derive(Clone, Copy, Debug, PartialEq, Eq, Structural)]
pub struct XZPoint {
    pub x: i32,
    pub z: i32,
}

impl XZPoint {
    pub fn new(x: i32, z: i32) -> (r: XZPoint)
        ensures
            r == (XZPoint { x, z }),
    {
        XZPoint { x, z }
    }
}

/// The blocks that a world spans, the last ones included.
#[derive(Clone, Copy, Debug, PartialEq, Eq, Structural)]
pub struct XZBBox {
    min: XZPoint,
    max: XZPoint,
}

/// Why there is no box of blocks.
#[derive(Clone, Copy, Debug)]
pub enum XZBBoxError {
    /// A length is not a number from zero up.
    Length(F64, F64),
    /// The length along x does not fit in an integer.
    LengthX(F64),
    /// The length along z does not fit in an integer.
    LengthZ(F64),
    /// The box would end before it starts.
    Empty(XZPoint, XZPoint),
}

/// The first and the last block of a box.
#[derive(Clone, Copy)]
pub struct Blocks {
    pub min: XZPoint,
    pub max: XZPoint,
}

/// Whether a length along an axis is one that a box can have.
pub open spec fn is_length(a: F64) -> bool {
    cast::of_integer(0).at_most(a) && a.at_most(cast::of_integer(i32::MAX as int))
}

/// Whether `e` is what is wrong with two lengths.
pub open spec fn is_length_fault(x: F64, z: F64, e: XZBBoxError) -> bool {
    let zero = cast::of_integer(0);
    let positive = zero.at_most(x) && zero.at_most(z);
    match e {
        XZBBoxError::Length(a, b) => !positive && a == x && b == z,
        XZBBoxError::LengthX(a) => positive && !is_length(x) && a == x,
        XZBBoxError::LengthZ(b) => positive && is_length(x) && !is_length(z) && b == z,
        XZBBoxError::Empty(_, _) => false,
    }
}

/// The box from the origin with the given lengths.
pub open spec fn from_lengths(x: F64, z: F64) -> Blocks {
    Blocks {
        min: XZPoint { x: 0, z: 0 },
        max: XZPoint { x: cast::as_i32(x) as i32, z: cast::as_i32(z) as i32 },
    }
}

impl View for XZBBox {
    type V = Blocks;

    closed spec fn view(&self) -> Blocks {
        Blocks { min: self.min, max: self.max }
    }
}

impl XZBBox {
    /// The box does not end before it starts.
    #[verifier::type_invariant]
    pub open spec fn valid(self) -> bool {
        self@.min.x <= self@.max.x && self@.min.z <= self@.max.z
    }

    /// The box of the blocks from the origin to the given lengths.
    pub fn rect_from_xz_lengths(length_x: F64, length_z: F64) -> (r: Result<XZBBox, XZBBoxError>)
        ensures
            match r {
                Ok(b) => is_length(length_x) && is_length(length_z) && b@ == from_lengths(
                    length_x,
                    length_z,
                ),
                Err(e) => is_length_fault(length_x, length_z, e),
            },
    {
        let zero: F64 = F64::from_i32(0);
        let limit: F64 = F64::from_i32(i32::MAX);
        if !zero.le(length_x) || !zero.le(length_z) {
            return Err(XZBBoxError::Length(length_x, length_z));
        }
        if !length_x.le(limit) {
            return Err(XZBBoxError::LengthX(length_x));
        }
        if !length_z.le(limit) {
            return Err(XZBBoxError::LengthZ(length_z));
        }
        proof {
            lemma_length_is_not_negative(length_x);
            lemma_length_is_not_negative(length_z);
        }
        Ok(
            XZBBox {
                min: XZPoint { x: 0, z: 0 },
                max: XZPoint { x: length_x.to_i32(), z: length_z.to_i32() },
            },
        )
    }

    /// The box from one block to another.
    pub fn rect_from_min_max(min_x: i32, min_z: i32, max_x: i32, max_z: i32) -> (r: Result<
        XZBBox,
        XZBBoxError,
    >)
        ensures
            ({
                let min = XZPoint { x: min_x, z: min_z };
                let max = XZPoint { x: max_x, z: max_z };
                let ordered = min_x <= max_x && min_z <= max_z;
                match r {
                    Ok(b) => ordered && b@ == (Blocks { min, max }),
                    Err(XZBBoxError::Empty(p, q)) => !ordered && p == min && q == max,
                    Err(_) => false,
                }
            }),
    {
        let min: XZPoint = XZPoint { x: min_x, z: min_z };
        let max: XZPoint = XZPoint { x: max_x, z: max_z };
        if min_x <= max_x && min_z <= max_z {
            Ok(XZBBox { min, max })
        } else {
            Err(XZBBoxError::Empty(min, max))
        }
    }

    pub fn min_x(&self) -> (r: i32)
        ensures
            r == self@.min.x,
            self.valid(),
    {
        proof {
            use_type_invariant(self);
        }
        self.min.x
    }

    pub fn min_z(&self) -> (r: i32)
        ensures
            r == self@.min.z,
            self.valid(),
    {
        proof {
            use_type_invariant(self);
        }
        self.min.z
    }

    pub fn max_x(&self) -> (r: i32)
        ensures
            r == self@.max.x,
            self.valid(),
    {
        proof {
            use_type_invariant(self);
        }
        self.max.x
    }

    pub fn max_z(&self) -> (r: i32)
        ensures
            r == self@.max.z,
            self.valid(),
    {
        proof {
            use_type_invariant(self);
        }
        self.max.z
    }
}

/// A number from zero up becomes an integer from zero up.
pub proof fn lemma_length_is_not_negative(a: F64)
    requires
        cast::of_integer(0).at_most(a),
    ensures
        cast::as_i32(a) >= 0,
{
    crate::binary64::arith::lemma_nearest_zero(1);
    assert(0 * cast::one() == 0);
    crate::binary64::laws::lemma_signed(false, 0);
    assert(crate::binary64::scale(0) == 0);
    vstd::arithmetic::power2::lemma_pow2_pos(1074);
    let s = crate::binary64::scale(a.magnitude()) as int;
    vstd::arithmetic::div_mod::lemma_div_pos_is_pos(s, cast::one());
    if a.negative() {
        vstd::arithmetic::div_mod::lemma_div_basics_1(cast::one());
        assert(s == 0);
        assert(0int / cast::one() == 0) by {
            vstd::arithmetic::div_mod::lemma_div_of0(cast::one());
        }
    }
}

/// There is a box for two lengths from zero to the largest block, and for no others. It
/// starts at the origin, and ends in the blocks that the lengths are cut to.
pub proof fn law_boxes_of_lengths(x: F64, z: F64, r: Result<XZBBox, XZBBoxError>)
    requires
        call_ensures(XZBBox::rect_from_xz_lengths, (x, z), r),
    ensures
        ({
            let o = cast::one();
            let good = |a: F64| !a.nan() && 0 <= a.units() <= 0x7fff_ffff * o;
            &&& r is Ok <==> good(x) && good(z)
            &&& r matches Ok(b) ==> {
                let max = b@.max;
                &&& b@.min == (XZPoint { x: 0, z: 0 })
                &&& max.x * o <= x.units() < (max.x + 1) * o
                &&& max.z * o <= z.units() < (max.z + 1) * o
            }
            &&& r matches Err(XZBBoxError::LengthX(a)) ==> a == x && !good(x)
            &&& r matches Err(XZBBoxError::LengthZ(a)) ==> a == z && !good(z) && good(x)
            &&& r matches Err(XZBBoxError::Length(a, b)) ==> a == x && b == z
        }),
{
    let o = cast::one();
    vstd::arithmetic::power2::lemma2_to64_rest();
    vstd::arithmetic::power2::lemma_pow2_pos(1074);
    crate::binary64::error::lemma_integer_value(0);
    crate::binary64::error::lemma_integer_value(0x7fff_ffff);
    assert(0 * o == 0);
    crate::coordinate_system::positions::lemma_cut(x);
    crate::coordinate_system::positions::lemma_cut(z);
    assert(0x7fff_ffff * o < 0x8000_0000 * o) by (nonlinear_arith)
        requires
            o > 0,
    ;
}

} // verus!
