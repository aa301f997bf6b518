//! Single-precision numbers, carried by their bit patterns.
//!
//! The library stores, copies, compares and fingerprints such numbers, which
//! needs integers only. It does not add or multiply them.

use vstd::prelude::*;

verus! {

/// Bits of the largest finite magnitude plus one unit: infinity.
pub const INFINITY_BITS: u32 = 0x7f80_0000;

/// Weight of the sign bit.
pub const SIGN_BIT: u32 = 0x8000_0000;

/// A single-precision number in the IEEE 754 binary32 encoding.
#[derive(Clone, Copy, PartialEq, Eq, Structural, Debug, Hash)]
pub struct Scalar {
    pub bits: u32,
}

impl Scalar {
    /// The encoding without its sign.
    pub open spec fn magnitude(self) -> int {
        if self.bits >= SIGN_BIT {
            self.bits - SIGN_BIT
        } else {
            self.bits as int
        }
    }

    pub open spec fn nan(self) -> bool {
        self.magnitude() > INFINITY_BITS
    }

    pub open spec fn finite(self) -> bool {
        self.magnitude() < INFINITY_BITS
    }

    /// An integer that orders the numbers: it grows with the value, and both
    /// zeros have rank 0.
    pub open spec fn rank(self) -> int {
        if self.bits >= SIGN_BIT {
            -self.magnitude()
        } else {
            self.magnitude()
        }
    }

    /// The `<` of the numbers: false where either is not a number.
    pub open spec fn less(self, other: Scalar) -> bool {
        !self.nan() && !other.nan() && self.rank() < other.rank()
    }

    /// The `==` of the numbers: the two zeros are equal, and what is not a
    /// number equals nothing.
    pub open spec fn equal(self, other: Scalar) -> bool {
        !self.nan() && !other.nan() && self.rank() == other.rank()
    }

    /// The number with these bits.
    pub fn of_bits(bits: u32) -> (r: Scalar)
        ensures
            r.bits == bits,
    {
        Scalar { bits }
    }

    pub fn is_nan(self) -> (r: bool)
        ensures
            r == self.nan(),
    {
        if self.bits >= SIGN_BIT {
            self.bits - SIGN_BIT > INFINITY_BITS
        } else {
            self.bits > INFINITY_BITS
        }
    }

    pub fn is_finite(self) -> (r: bool)
        ensures
            r == self.finite(),
    {
        if self.bits >= SIGN_BIT {
            self.bits - SIGN_BIT < INFINITY_BITS
        } else {
            self.bits < INFINITY_BITS
        }
    }

    fn order_rank(self) -> (r: i64)
        ensures
            r == self.rank(),
    {
        if self.bits >= SIGN_BIT {
            -((self.bits - SIGN_BIT) as i64)
        } else {
            self.bits as i64
        }
    }

    /// Is this number below `other`?
    pub fn is_less(self, other: Scalar) -> (r: bool)
        ensures
            r == self.less(other),
    {
        !self.is_nan() && !other.is_nan() && self.order_rank() < other.order_rank()
    }

    /// Is this number at most `other`?
    pub fn is_at_most(self, other: Scalar) -> (r: bool)
        ensures
            r == (self.less(other) || self.equal(other)),
    {
        !self.is_nan() && !other.is_nan() && self.order_rank() <= other.order_rank()
    }

    /// Are the two the same number?
    pub fn is_equal(self, other: Scalar) -> (r: bool)
        ensures
            r == self.equal(other),
    {
        !self.is_nan() && !other.is_nan() && self.order_rank() == other.order_rank()
    }
}

/// The larger of two numbers; where one is not a number, the other.
pub open spec fn larger(a: Scalar, b: Scalar) -> Scalar {
    if a.nan() || a.less(b) {
        b
    } else {
        a
    }
}

/// The smaller of two numbers; where one is not a number, the other.
pub open spec fn smaller(a: Scalar, b: Scalar) -> Scalar {
    if a.nan() || b.less(a) {
        b
    } else {
        a
    }
}

/// The number of `low..=high` that is nearest to `a`; what is not a number
/// stays as it is.
pub open spec fn clamped(a: Scalar, low: Scalar, high: Scalar) -> Scalar {
    if a.less(low) {
        low
    } else if high.less(a) {
        high
    } else {
        a
    }
}

impl Scalar {
    /// The larger of the two numbers.
    pub fn at_least(self, low: Scalar) -> (r: Scalar)
        ensures
            r == larger(self, low),
    {
        if self.is_nan() || self.is_less(low) {
            low
        } else {
            self
        }
    }

    /// The smaller of the two numbers.
    pub fn at_most(self, high: Scalar) -> (r: Scalar)
        ensures
            r == smaller(self, high),
    {
        if self.is_nan() || high.is_less(self) {
            high
        } else {
            self
        }
    }

    /// The number between the bounds that is nearest to this one.
    pub fn held_between(self, low: Scalar, high: Scalar) -> (r: Scalar)
        ensures
            r == clamped(self, low, high),
    {
        if self.is_less(low) {
            low
        } else if high.is_less(self) {
            high
        } else {
            self
        }
    }
}

/// Of two numbers exactly one is below the other, or they are equal; below
/// is transitive.
pub proof fn law_numbers_are_ordered(a: Scalar, b: Scalar, c: Scalar)
    requires
        !a.nan(),
        !b.nan(),
        !c.nan(),
    ensures
        a.less(b) || a.equal(b) || b.less(a),
        !(a.less(b) && b.less(a)),
        !(a.less(b) && a.equal(b)),
        a.less(b) && b.less(c) ==> a.less(c),
        a.equal(b) && b.equal(c) ==> a.equal(c),
{
}

/// A point or a direction.
#[derive(Clone, Copy, PartialEq, Eq, Structural, Debug, Hash)]
pub struct Vec3 {
    pub x: Scalar,
    pub y: Scalar,
    pub z: Scalar,
}

/// A rotation.
#[derive(Clone, Copy, PartialEq, Eq, Structural, Debug, Hash)]
pub struct Quat {
    pub x: Scalar,
    pub y: Scalar,
    pub z: Scalar,
    pub w: Scalar,
}

impl Vec3 {
    /// The `==` of the vectors, number by number.
    pub open spec fn equal(self, other: Vec3) -> bool {
        self.x.equal(other.x) && self.y.equal(other.y) && self.z.equal(other.z)
    }

    pub fn is_equal(self, other: Vec3) -> (r: bool)
        ensures
            r == self.equal(other),
    {
        self.x.is_equal(other.x) && self.y.is_equal(other.y) && self.z.is_equal(other.z)
    }
}

impl Quat {
    /// The `==` of the rotations, number by number.
    pub open spec fn equal(self, other: Quat) -> bool {
        self.x.equal(other.x) && self.y.equal(other.y) && self.z.equal(other.z) && self.w.equal(
            other.w,
        )
    }

    pub fn is_equal(self, other: Quat) -> (r: bool)
        ensures
            r == self.equal(other),
    {
        self.x.is_equal(other.x) && self.y.is_equal(other.y) && self.z.is_equal(other.z)
            && self.w.is_equal(other.w)
    }
}

/// A placement: scale, then rotate, then move.
#[derive(Clone, Copy, PartialEq, Eq, Structural, Debug, Hash)]
pub struct Transform {
    pub location: Vec3,
    pub rotation: Quat,
    pub scale: Vec3,
}

/// Bits of the number one.
pub const ONE_BITS: u32 = 0x3f80_0000;

/// The placement that changes nothing.
pub open spec fn identity() -> Transform {
    let zero = Scalar { bits: 0 };
    let one = Scalar { bits: ONE_BITS };
    Transform {
        location: Vec3 { x: zero, y: zero, z: zero },
        rotation: Quat { x: zero, y: zero, z: zero, w: one },
        scale: Vec3 { x: one, y: one, z: one },
    }
}

impl Default for Transform {
    fn default() -> (r: Transform)
        ensures
            r == identity(),
    {
        let zero = Scalar { bits: 0 };
        let one = Scalar { bits: ONE_BITS };
        Transform {
            location: Vec3 { x: zero, y: zero, z: zero },
            rotation: Quat { x: zero, y: zero, z: zero, w: one },
            scale: Vec3 { x: one, y: one, z: one },
        }
    }
}

/// Of two numbers the larger one is neither less than the other nor made up,
/// and so the smaller one; what is not a number gives way to a number.
pub proof fn law_larger_and_smaller(a: Scalar, b: Scalar)
    ensures
        larger(a, b) == a || larger(a, b) == b,
        smaller(a, b) == a || smaller(a, b) == b,
        !larger(a, b).less(a) && !larger(a, b).less(b),
        !a.less(smaller(a, b)) && !b.less(smaller(a, b)),
        !b.nan() ==> !larger(a, b).nan() && !smaller(a, b).nan(),
        a.nan() ==> larger(a, b) == b && smaller(a, b) == b,
        !a.nan() && b.nan() ==> larger(a, b) == a && smaller(a, b) == a,
{
}

/// A clamped number lies between the bounds, and it is the number itself
/// where that does.
pub proof fn law_clamped_numbers_are_in_bounds(a: Scalar, low: Scalar, high: Scalar)
    requires
        !high.less(low),
    ensures
        !clamped(a, low, high).less(low),
        !high.less(clamped(a, low, high)),
        !a.less(low) && !high.less(a) ==> clamped(a, low, high) == a,
        clamped(a, low, high) == a || clamped(a, low, high) == low || clamped(a, low, high) == high,
{
}

/// Numbers are compared by their value: a sign bit makes what it stands on
/// the opposite, and the two zeros are equal.
pub proof fn law_sign_turns_the_order(a: Scalar, b: Scalar)
    requires
        a.bits < SIGN_BIT,
        b.bits < SIGN_BIT,
        !a.nan(),
        !b.nan(),
    ensures
        ({
            let minus_a = Scalar { bits: (a.bits + SIGN_BIT) as u32 };
            let minus_b = Scalar { bits: (b.bits + SIGN_BIT) as u32 };
            &&& a.less(b) <==> minus_b.less(minus_a)
            &&& a.less(b) <==> a.bits < b.bits
            &&& minus_a.less(b) || minus_a.equal(b)
            &&& a.bits == 0 <==> minus_a.equal(a)
            &&& a.finite() == minus_a.finite()
        }),
{
}

} // verus!
