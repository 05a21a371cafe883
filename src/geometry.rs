use vstd::prelude::*;
use crate::error::DocumentError;

verus! {

/// The mask of the exponent field of a 32-bit IEEE 754 number.
pub const EXPONENT_MASK: u32 = 0x7f80_0000;

/// The sign bit of a 32-bit IEEE 754 number.
pub const SIGN_BIT: u32 = 0x8000_0000;

/// The bit pattern of 1.0.
pub const ONE_BITS: u32 = 0x3f80_0000;

/// A 32-bit float is finite unless its exponent field is all ones (infinity or NaN).
pub open spec fn is_finite_bits(b: u32) -> bool {
    b & EXPONENT_MASK != EXPONENT_MASK
}

/// An integer that orders finite floats as their values do: the magnitude bits,
/// negated for a set sign bit. Both zeros get the key 0.
pub open spec fn order_key(b: u32) -> int {
    if b >= SIGN_BIT {
        -(b - SIGN_BIT)
    } else {
        b as int
    }
}

/// A finite 32-bit float, held as its bit pattern.
#[derive(Debug, Clone, Copy)]
pub struct NoNonsenseF32 {
    bits: u32,
}

impl View for NoNonsenseF32 {
    type V = u32;

    closed spec fn view(&self) -> u32 {
        self.bits
    }
}

impl NoNonsenseF32 {
    #[verifier::type_invariant]
    spec fn finite(self) -> bool {
        is_finite_bits(self.bits)
    }

    /// Wraps the float with bit pattern `bits`; fails on infinity and NaN.
    pub fn from_bits(bits: u32) -> (r: Result<NoNonsenseF32, DocumentError>)
        ensures
            r is Ok <==> is_finite_bits(bits),
            r matches Ok(s) ==> s@ == bits,
            r matches Err(e) ==> e == DocumentError::InvalidNumber,
    {
        if bits & EXPONENT_MASK != EXPONENT_MASK {
            Ok(NoNonsenseF32 { bits })
        } else {
            Err(DocumentError::InvalidNumber)
        }
    }

    /// The bit pattern of the wrapped float.
    pub fn to_bits(&self) -> (r: u32)
        ensures
            r == self@,
            is_finite_bits(r),
    {
        proof {
            use_type_invariant(self);
        }
        self.bits
    }

    pub fn zero() -> (r: NoNonsenseF32)
        ensures
            r@ == 0,
    {
        assert(0u32 & EXPONENT_MASK != EXPONENT_MASK) by (bit_vector);
        NoNonsenseF32 { bits: 0 }
    }

    pub fn one() -> (r: NoNonsenseF32)
        ensures
            r@ == ONE_BITS,
    {
        assert(ONE_BITS & EXPONENT_MASK != EXPONENT_MASK) by (bit_vector);
        NoNonsenseF32 { bits: ONE_BITS }
    }

    /// The order key of the value (see `order_key`).
    pub fn key(&self) -> (r: i64)
        ensures
            r as int == order_key(self@),
    {
        if self.bits >= SIGN_BIT {
            -((self.bits - SIGN_BIT) as i64)
        } else {
            self.bits as i64
        }
    }

    /// The negated value: the same bits with the sign bit flipped.
    pub fn neg(&self) -> (r: NoNonsenseF32)
        ensures
            r@ == self@ ^ SIGN_BIT,
            order_key(r@) == -order_key(self@),
    {
        proof {
            use_type_invariant(self);
        }
        let b = self.bits;
        let n = b ^ SIGN_BIT;
        assert(n & EXPONENT_MASK == b & EXPONENT_MASK) by (bit_vector)
            requires
                n == b ^ 0x8000_0000u32,
                EXPONENT_MASK == 0x7f80_0000u32,
        ;
        assert(b >= 0x8000_0000u32 ==> n == b - 0x8000_0000u32) by (bit_vector)
            requires
                n == b ^ 0x8000_0000u32,
        ;
        assert(b < 0x8000_0000u32 ==> n == b + 0x8000_0000u32) by (bit_vector)
            requires
                n == b ^ 0x8000_0000u32,
        ;
        NoNonsenseF32 { bits: n }
    }

    /// Whether the two scalars hold the same value (both zeros are equal).
    pub fn same_value(&self, other: &NoNonsenseF32) -> (r: bool)
        ensures
            r == (order_key(self@) == order_key(other@)),
    {
        self.key() == other.key()
    }
}

/// A point on the page.
#[derive(Debug, Clone, Copy)]
pub struct Position {
    pub x: NoNonsenseF32,
    pub y: NoNonsenseF32,
}

/// The order of positions: by `y` first, then by `x`.
pub open spec fn position_key(p: Position) -> (int, int) {
    (order_key(p.y@), order_key(p.x@))
}

pub open spec fn key_less(a: (int, int), b: (int, int)) -> bool {
    a.0 < b.0 || (a.0 == b.0 && a.1 < b.1)
}

impl Position {
    pub fn origin() -> (r: Position)
        ensures
            r.x@ == 0 && r.y@ == 0,
            position_key(r) == (0int, 0int),
    {
        Position { x: NoNonsenseF32::zero(), y: NoNonsenseF32::zero() }
    }

    /// Whether `self` comes strictly before `other` in reading order.
    pub fn precedes(&self, other: &Position) -> (r: bool)
        ensures
            r == key_less(position_key(*self), position_key(*other)),
    {
        let sy = self.y.key();
        let oy = other.y.key();
        sy < oy || (sy == oy && self.x.key() < other.x.key())
    }

    /// Whether the two positions hold the same coordinates.
    pub fn same_place(&self, other: &Position) -> (r: bool)
        ensures
            r == (position_key(*self) == position_key(*other)),
    {
        self.y.same_value(&other.y) && self.x.same_value(&other.x)
    }

    /// The position mirrored in the horizontal axis.
    pub fn flipped(&self) -> (r: Position)
        ensures
            r.x@ == self.x@,
            position_key(r) == (-order_key(self.y@), order_key(self.x@)),
    {
        Position { x: self.x, y: self.y.neg() }
    }
}

/// A row-major 3x3 matrix acting on column vectors `(x, y, 1)`.
#[derive(Debug, Clone, Copy)]
pub struct Matrix2D {
    pub a0: NoNonsenseF32,
    pub b0: NoNonsenseF32,
    pub c0: NoNonsenseF32,
    pub a1: NoNonsenseF32,
    pub b1: NoNonsenseF32,
    pub c1: NoNonsenseF32,
    pub a2: NoNonsenseF32,
    pub b2: NoNonsenseF32,
    pub c2: NoNonsenseF32,
}

impl Matrix2D {
    /// The identity matrix.
    pub fn identity() -> (r: Matrix2D)
        ensures
            r.a0@ == ONE_BITS && r.b0@ == 0 && r.c0@ == 0,
            r.a1@ == 0 && r.b1@ == ONE_BITS && r.c1@ == 0,
            r.a2@ == 0 && r.b2@ == 0 && r.c2@ == ONE_BITS,
    {
        Matrix2D {
            a0: NoNonsenseF32::one(),
            b0: NoNonsenseF32::zero(),
            c0: NoNonsenseF32::zero(),
            a1: NoNonsenseF32::zero(),
            b1: NoNonsenseF32::one(),
            c1: NoNonsenseF32::zero(),
            a2: NoNonsenseF32::zero(),
            b2: NoNonsenseF32::zero(),
            c2: NoNonsenseF32::one(),
        }
    }

    /// A text matrix `[a b c d e f]` as a content stream gives it, with the
    /// fixed third row `0 0 1`.
    pub fn from_text_matrix(a: NoNonsenseF32, b: NoNonsenseF32, c: NoNonsenseF32, d: NoNonsenseF32, e: NoNonsenseF32, f: NoNonsenseF32) -> (r:
        Matrix2D)
        ensures
            r.a0 == a && r.a1 == b && r.b0 == c && r.b1 == d && r.c0 == e && r.c1 == f,
            r.a2@ == 0 && r.b2@ == 0 && r.c2@ == ONE_BITS,
    {
        Matrix2D {
            a0: a,
            b0: c,
            c0: e,
            a1: b,
            b1: d,
            c1: f,
            a2: NoNonsenseF32::zero(),
            b2: NoNonsenseF32::zero(),
            c2: NoNonsenseF32::one(),
        }
    }

    /// The image of the origin: `a·0 + b·0 + c` for each row, which for finite
    /// `a` and `b` is the value of the translation column `c`.
    pub fn apply_to_origin(&self) -> (r: Position)
        ensures
            r.x == self.c0 && r.y == self.c1,
    {
        Position { x: self.c0, y: self.c1 }
    }
}

impl Default for Matrix2D {
    /// The identity.
    fn default() -> (r: Matrix2D)
        ensures
            r.a0@ == ONE_BITS && r.b0@ == 0 && r.c0@ == 0,
            r.a1@ == 0 && r.b1@ == ONE_BITS && r.c1@ == 0,
            r.a2@ == 0 && r.b2@ == 0 && r.c2@ == ONE_BITS,
    {
        Matrix2D::identity()
    }
}

/// The identity maps the origin to the origin: the translation column of a
/// transform with the entries that `Matrix2D::identity` gives is zero.
pub proof fn lemma_identity_fixes_origin(t: Matrix2D)
    requires
        t.a0@ == ONE_BITS && t.b0@ == 0 && t.c0@ == 0,
        t.a1@ == 0 && t.b1@ == ONE_BITS && t.c1@ == 0,
    ensures
        position_key(Position { x: t.c0, y: t.c1 }) == (0int, 0int),
        order_key(t.c0@) == 0 && order_key(t.c1@) == 0,
{
}

} // verus!
