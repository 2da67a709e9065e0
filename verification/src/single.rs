//! Single-precision numbers, held by their bits.
//!
//! The library compares, clamps and moves such numbers and never calculates
//! with them, so the bit pattern is all it needs: sign in the top bit, and
//! below it a magnitude that grows with the absolute value.
use vstd::prelude::*;

verus! {

/// An IEEE 754 binary32 number.
#[derive(Clone, Copy, Debug, PartialEq, Eq, Structural)]
pub struct Single {
    pub bits: u32,
}

/// The bits of the number one.
pub const ONE: u32 = 0x3f80_0000;

/// The bits below the sign.
pub open spec fn magnitude(x: Single) -> int {
    x.bits as int % 0x8000_0000
}

/// The sign bit is set.
pub open spec fn negative(x: Single) -> bool {
    x.bits >= 0x8000_0000
}

/// Not a number: the magnitude lies past that of infinity.
pub open spec fn nan(x: Single) -> bool {
    magnitude(x) > 0x7f80_0000
}

/// An integer that orders numbers as their values do; both zeros give 0.
pub open spec fn rank(x: Single) -> int {
    if negative(x) {
        -magnitude(x)
    } else {
        magnitude(x)
    }
}

/// `a < b`, which is false where either is not a number.
pub open spec fn less(a: Single, b: Single) -> bool {
    !nan(a) && !nan(b) && rank(a) < rank(b)
}

/// An integer that orders every bit pattern: by value, the negative zero
/// below the positive one, and what is not a number at the far ends.
pub open spec fn total_rank(x: Single) -> int {
    if negative(x) {
        -magnitude(x) - 1
    } else {
        magnitude(x)
    }
}

/// Positive zero.
pub open spec fn zero() -> Single {
    Single { bits: 0 }
}

/// `x` brought into `lo..=hi`; what is not a number stays as it is.
pub open spec fn clamped(x: Single, lo: Single, hi: Single) -> Single {
    if less(x, lo) {
        lo
    } else if less(hi, x) {
        hi
    } else {
        x
    }
}

/// `x` where it is above zero, else zero: what is not a number gives zero.
pub open spec fn floored(x: Single) -> Single {
    if less(zero(), x) {
        x
    } else {
        zero()
    }
}

impl Single {
    /// Whether `self < other`.
    pub fn lt(self, other: Single) -> (r: bool)
        ensures
            r == less(self, other),
    {
        let a = self.bits % 0x8000_0000;
        let b = other.bits % 0x8000_0000;
        if a > 0x7f80_0000 || b > 0x7f80_0000 {
            return false;
        }
        let x: i64 = if self.bits >= 0x8000_0000 {
            -(a as i64)
        } else {
            a as i64
        };
        let y: i64 = if other.bits >= 0x8000_0000 {
            -(b as i64)
        } else {
            b as i64
        };
        x < y
    }

    /// The place of `self` among all bit patterns.
    pub fn order(self) -> (r: i64)
        ensures
            r == total_rank(self),
    {
        let a = self.bits % 0x8000_0000;
        if self.bits >= 0x8000_0000 {
            -(a as i64) - 1
        } else {
            a as i64
        }
    }

    /// `self` brought into `lo..=hi`.
    pub fn clamp_to(self, lo: Single, hi: Single) -> (r: Single)
        ensures
            r == clamped(self, lo, hi),
    {
        if self.lt(lo) {
            lo
        } else if hi.lt(self) {
            hi
        } else {
            self
        }
    }

    /// `self` where it is above zero, else zero.
    pub fn floor_at_zero(self) -> (r: Single)
        ensures
            r == floored(self),
    {
        if (Single { bits: 0 }).lt(self) {
            self
        } else {
            Single { bits: 0 }
        }
    }
}

/// A clamped number lies between its bounds, unless it is not a number.
pub proof fn clamped_lies_between(x: Single, lo: Single, hi: Single)
    requires
        !nan(x),
        !nan(lo),
        !nan(hi),
        rank(lo) <= rank(hi),
    ensures
        rank(lo) <= rank(clamped(x, lo, hi)) <= rank(hi),
{
}

/// Two to the power `e`.
pub open spec fn power(e: nat) -> int
    decreases e,
{
    if e == 0 {
        1
    } else {
        2 * power((e - 1) as nat)
    }
}

/// The value of a finite number, in units of the least positive one: a
/// fraction of 23 bits below an exponent of eight, with a leading bit of its
/// own unless the exponent is zero.
pub open spec fn units(x: Single) -> int {
    let m = x.bits as int % 0x8000_0000;
    let (e, f) = (m / 0x80_0000, m % 0x80_0000);
    let size = if e == 0 {
        f
    } else {
        (f + 0x80_0000) * power((e - 1) as nat)
    };
    if x.bits >= 0x8000_0000 {
        -size
    } else {
        size
    }
}

/// The exponent is not that of infinity and of what is not a number.
pub open spec fn finite(x: Single) -> bool {
    x.bits as int % 0x8000_0000 / 0x80_0000 < 255
}

proof fn power_positive(e: nat)
    ensures
        power(e) >= 1,
    decreases e,
{
    if e > 0 {
        power_positive((e - 1) as nat);
    }
}

/// The size of a magnitude, by exponent and fraction.
spec fn size_of(e: int, f: int) -> int {
    if e == 0 {
        f
    } else {
        (f + 0x80_0000) * power((e - 1) as nat)
    }
}

proof fn next_size(e: int, f: int)
    requires
        0 <= e,
        0 <= f < 0x80_0000,
    ensures
        0 <= size_of(e, f) < size_of(e + 1, 0),
        f + 1 < 0x80_0000 ==> size_of(e, f) < size_of(e, f + 1),
{
    if e > 0 {
        let p = power((e - 1) as nat);
        power_positive((e - 1) as nat);
        assert(power(e as nat) == 2 * p);
        assert((f + 0x80_0000) * p < 0x80_0000 * (2 * p) && 0 <= (f + 0x80_0000) * p)
            by (nonlinear_arith)
            requires
                0 <= f < 0x80_0000,
                p >= 1,
        ;
        assert((f + 0x80_0000) * p < (f + 1 + 0x80_0000) * p) by (nonlinear_arith)
            requires
                p >= 1,
        ;
    } else {
        assert(power(0) == 1);
        assert(size_of(1, 0) == 0x80_0000 * power(0));
    }
}

proof fn size_grows(a: int, b: int)
    requires
        0 <= a < b,
    ensures
        0 <= size_of(a / 0x80_0000, a % 0x80_0000) < size_of(b / 0x80_0000, b % 0x80_0000),
    decreases b - a,
{
    let c = b - 1;
    let (e, f) = (c / 0x80_0000, c % 0x80_0000);
    next_size(e, f);
    if f + 1 < 0x80_0000 {
        assert(b / 0x80_0000 == e && b % 0x80_0000 == f + 1);
    } else {
        assert(b / 0x80_0000 == e + 1 && b % 0x80_0000 == 0);
    }
    if a < c {
        size_grows(a, c);
    }
}

/// Numbers are ordered by their values, infinities beyond all finite ones, and
/// what is not a number is ordered against nothing.
pub proof fn numbers_are_ordered_by_value(a: Single, b: Single)
    ensures
        finite(a) && finite(b) ==> (less(a, b) <==> units(a) < units(b)),
        finite(a) && b.bits == 0x7f80_0000 ==> less(a, b) && !less(b, a),
        finite(a) && b.bits == 0xff80_0000 ==> less(b, a) && !less(a, b),
        (0x7f80_0000 < a.bits <= 0x7fff_ffff || 0xff80_0000 < a.bits) ==> !less(a, b) && !less(
            b,
            a,
        ),
{
    let (m, n) = (magnitude(a), magnitude(b));
    if m < n {
        size_grows(m, n);
    } else if n < m {
        size_grows(n, m);
    }
    if m > 0 {
        size_grows(0, m);
    }
    if n > 0 {
        size_grows(0, n);
    }
    assert(size_of(0, 0) == 0);
    assert(units(a) == if negative(a) {
        -size_of(m / 0x80_0000, m % 0x80_0000)
    } else {
        size_of(m / 0x80_0000, m % 0x80_0000)
    });
    assert(units(b) == if negative(b) {
        -size_of(n / 0x80_0000, n % 0x80_0000)
    } else {
        size_of(n / 0x80_0000, n % 0x80_0000)
    });
}

/// The total order keeps the order of values, tells every two bit patterns
/// apart, puts the negative zero before the positive one, and what is not a
/// number beyond the infinities of its sign.
pub proof fn the_total_order_refines_the_values(a: Single, b: Single)
    ensures
        less(a, b) ==> total_rank(a) < total_rank(b),
        total_rank(a) == total_rank(b) <==> a == b,
        a.bits == 0x8000_0000 && b.bits == 0 ==> total_rank(a) < total_rank(b),
        a.bits <= 0x7f80_0000 && 0x7f80_0000 < b.bits < 0x8000_0000 ==> total_rank(a)
            < total_rank(b),
        0xff80_0000 < a.bits && 0x8000_0000 <= b.bits <= 0xff80_0000 ==> total_rank(a)
            < total_rank(b),
        a.bits >= 0x8000_0000 && b.bits < 0x8000_0000 ==> total_rank(a) < total_rank(b),
{
}

/// Clamping changes nothing that lies within its bounds, and gives the bound
/// that was passed where something does not.
pub proof fn clamping_keeps_what_fits(x: Single, lo: Single, hi: Single)
    requires
        !less(hi, lo),
    ensures
        !less(x, lo) && !less(hi, x) ==> clamped(x, lo, hi) == x,
        less(x, lo) ==> clamped(x, lo, hi) == lo,
        less(hi, x) && !less(x, lo) ==> clamped(x, lo, hi) == hi,
{
}

/// A floor at zero keeps every positive number and gives the positive zero for
/// everything else, what is not a number too.
pub proof fn a_floor_keeps_positive_numbers(x: Single)
    ensures
        1 <= x.bits <= 0x7f80_0000 ==> floored(x) == x,
        x.bits == 0 || x.bits > 0x7f80_0000 ==> floored(x).bits == 0,
{
}

} // verus!
