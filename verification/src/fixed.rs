//! Signed fixed-point numbers with 32 fractional bits and saturating
//! arithmetic.
//!
//! A number is modelled by its raw integer `r`, which stands for the rational
//! `r / 2^32`. Every operation is total: a result outside the representable
//! range is replaced by the nearest bound, and the range is symmetric, so
//! negation is exact.

use vstd::prelude::*;

verus! {

/// The raw value of the number one.
pub const ONE_RAW: i64 = 0x1_0000_0000;

/// The largest raw value; the smallest is its negation.
pub const MAX_RAW: i64 = 0x7fff_ffff_ffff_ffff;

/// Whether `v` is the raw value of some number.
pub open spec fn representable(v: int) -> bool {
    -MAX_RAW <= v <= MAX_RAW
}

/// The representable value nearest to `v`.
pub open spec fn saturate(v: int) -> int {
    if v > MAX_RAW {
        MAX_RAW as int
    } else if v < -MAX_RAW {
        -(MAX_RAW as int)
    } else {
        v
    }
}

/// `a / b` rounded toward zero, for `b != 0`.
pub open spec fn quotient(a: int, b: int) -> int {
    if a >= 0 && b > 0 {
        a / b
    } else if a >= 0 {
        -(a / (-b))
    } else if b > 0 {
        -((-a) / b)
    } else {
        (-a) / (-b)
    }
}

/// `v` held between two bounds given in either order.
pub open spec fn clamp_spec(v: int, start: int, end: int) -> int {
    if start <= end {
        if v < start {
            start
        } else if v > end {
            end
        } else {
            v
        }
    } else {
        if v < end {
            end
        } else if v > start {
            start
        } else {
            v
        }
    }
}

/// Raw value of the saturating sum.
pub open spec fn sum_spec(a: int, b: int) -> int {
    saturate(a + b)
}

/// Raw value of the saturating difference.
pub open spec fn difference_spec(a: int, b: int) -> int {
    saturate(a - b)
}

/// Raw value of the saturating product of two numbers.
pub open spec fn product_spec(a: int, b: int) -> int {
    saturate(quotient(a * b, ONE_RAW as int))
}

/// Raw value of the saturating quotient of two numbers. Dividing by zero
/// gives the bound on the side of the dividend, and zero for zero.
pub open spec fn ratio_spec(a: int, b: int) -> int {
    if b != 0 {
        saturate(quotient(a * ONE_RAW, b))
    } else if a > 0 {
        MAX_RAW as int
    } else if a < 0 {
        -(MAX_RAW as int)
    } else {
        0
    }
}

/// Raw value of a number multiplied by the integer `k`.
pub open spec fn multiple_spec(a: int, k: int) -> int {
    saturate(a * k)
}

/// Raw value of a number divided by the integer `k`, rounded toward zero.
/// Dividing by zero gives the bound on the side of the dividend.
pub open spec fn fraction_spec(a: int, k: int) -> int {
    if k != 0 {
        saturate(quotient(a, k))
    } else if a > 0 {
        MAX_RAW as int
    } else if a < 0 {
        -(MAX_RAW as int)
    } else {
        0
    }
}

/// The quotient never exceeds the dividend in magnitude.
pub proof fn lemma_quotient_bounds(a: int, b: int)
    requires
        b != 0,
    ensures
        a >= 0 ==> -a <= quotient(a, b) <= a,
        a <= 0 ==> a <= quotient(a, b) <= -a,
        a == 0 ==> quotient(a, b) == 0,
        b == 1 ==> quotient(a, b) == a,
{
    let m: int = if a >= 0 { a } else { -a };
    let d: int = if b > 0 { b } else { -b };
    assert(0 <= m / d <= m) by (nonlinear_arith)
        requires
            m >= 0,
            d >= 1,
    ;
    assert(d == 1 ==> m / d == m) by (nonlinear_arith);
}

/// Dividing an exact multiple gives the other factor back.
pub proof fn lemma_quotient_of_multiple(q: int, b: int)
    requires
        b != 0,
    ensures
        quotient(q * b, b) == q,
{
    let m: int = if q >= 0 { q } else { -q };
    let d: int = if b > 0 { b } else { -b };
    assert((m * d) / d == m && m * d >= 0 && (m * d == 0 ==> m == 0)) by (nonlinear_arith)
        requires
            m >= 0,
            d >= 1,
    ;
    assert(q * b == (if (q >= 0) == (b > 0) { m * d } else { -(m * d) })) by (nonlinear_arith)
        requires
            m == (if q >= 0 { q } else { -q }),
            d == (if b > 0 { b } else { -b }),
    ;
}

fn wide_quotient(a: i128, b: i128) -> (q: i128)
    requires
        b != 0,
        a > i128::MIN,
        b > i128::MIN,
    ensures
        q == quotient(a as int, b as int),
{
    let m: u128 = if a >= 0 { a as u128 } else { (-a) as u128 };
    let d: u128 = if b >= 0 { b as u128 } else { (-b) as u128 };
    let magnitude: u128 = m / d;
    assert(magnitude <= m) by (nonlinear_arith)
        requires
            magnitude == m / d,
            d >= 1,
    ;
    if (a >= 0) == (b > 0) {
        magnitude as i128
    } else {
        -(magnitude as i128)
    }
}

/// A fixed-point number: a raw value of 64 bits, of which the lower 32
/// hold the fraction.
#[derive(Clone, Copy, Debug, PartialEq, Eq)]
pub struct Fixed {
    raw: i64,
}

impl View for Fixed {
    type V = int;

    closed spec fn view(&self) -> int {
        self.raw as int
    }
}

impl Fixed {
    /// What holds of every number: its raw value is representable.
    #[verifier::type_invariant]
    pub open spec fn in_range(self) -> bool {
        representable(self@)
    }

    /// The number zero.
    pub fn zero() -> (r: Fixed)
        ensures
            r@ == 0,
    {
        Fixed { raw: 0 }
    }

    /// The number one.
    pub fn one() -> (r: Fixed)
        ensures
            r@ == ONE_RAW,
    {
        Fixed { raw: ONE_RAW }
    }

    /// The number with the raw value nearest to `raw`.
    pub fn from_raw(raw: i64) -> (r: Fixed)
        ensures
            r@ == saturate(raw as int),
    {
        if raw < -MAX_RAW {
            Fixed { raw: -MAX_RAW }
        } else {
            Fixed { raw }
        }
    }

    fn from_wide(v: i128) -> (r: Fixed)
        ensures
            r@ == saturate(v as int),
    {
        if v > MAX_RAW as i128 {
            Fixed { raw: MAX_RAW }
        } else if v < -(MAX_RAW as i128) {
            Fixed { raw: -MAX_RAW }
        } else {
            Fixed { raw: v as i64 }
        }
    }

    /// The raw value.
    pub fn raw(self) -> (r: i64)
        ensures
            r == self@,
            representable(r as int),
    {
        proof {
            use_type_invariant(&self);
        }
        self.raw
    }

    /// The integer `v` as a number.
    pub fn from_int(v: i64) -> (r: Fixed)
        ensures
            r@ == multiple_spec(ONE_RAW as int, v as int),
    {
        let wide: i128 = (v as i128) * 0x1_0000_0000;
        Fixed::from_wide(wide)
    }

    /// The number `num / den`, rounded toward zero.
    pub fn from_ratio(num: i64, den: i64) -> (r: Fixed)
        ensures
            r@ == fraction_spec(num * ONE_RAW, den as int),
    {
        if den == 0 {
            Fixed::bound_toward(num)
        } else {
            let wide: i128 = (num as i128) * 0x1_0000_0000;
            Fixed::from_wide(wide_quotient(wide, den as i128))
        }
    }

    /// Saturating sum.
    pub fn saturating_add(self, rhs: Fixed) -> (r: Fixed)
        ensures
            r@ == sum_spec(self@, rhs@),
    {
        Fixed::from_wide(self.raw as i128 + rhs.raw as i128)
    }

    /// Saturating difference.
    pub fn saturating_sub(self, rhs: Fixed) -> (r: Fixed)
        ensures
            r@ == difference_spec(self@, rhs@),
    {
        Fixed::from_wide(self.raw as i128 - rhs.raw as i128)
    }

    /// The negation, which is exact.
    pub fn neg(self) -> (r: Fixed)
        ensures
            r@ == -self@,
    {
        proof {
            use_type_invariant(&self);
        }
        Fixed { raw: -self.raw }
    }

    /// Saturating product, rounded toward zero.
    pub fn saturating_mul(self, rhs: Fixed) -> (r: Fixed)
        ensures
            r@ == product_spec(self@, rhs@),
    {
        let a: i128 = self.raw as i128;
        let b: i128 = rhs.raw as i128;
        assert(-0x4000_0000_0000_0000_0000_0000_0000_0000 <= a * b
            <= 0x4000_0000_0000_0000_0000_0000_0000_0000) by (nonlinear_arith)
            requires
                -0x8000_0000_0000_0000 <= a <= 0x8000_0000_0000_0000,
                -0x8000_0000_0000_0000 <= b <= 0x8000_0000_0000_0000,
        ;
        Fixed::from_wide(wide_quotient(a * b, 0x1_0000_0000))
    }

    /// Saturating quotient, rounded toward zero. Dividing by zero gives the
    /// bound on the side of the dividend, and zero for zero.
    pub fn saturating_div(self, rhs: Fixed) -> (r: Fixed)
        ensures
            r@ == ratio_spec(self@, rhs@),
    {
        if rhs.raw == 0 {
            Fixed::bound_toward(self.raw)
        } else {
            let wide: i128 = (self.raw as i128) * 0x1_0000_0000;
            Fixed::from_wide(wide_quotient(wide, rhs.raw as i128))
        }
    }

    fn bound_toward(side: i64) -> (r: Fixed)
        ensures
            r@ == if side > 0 {
                MAX_RAW as int
            } else if side < 0 {
                -(MAX_RAW as int)
            } else {
                0
            },
    {
        if side > 0 {
            Fixed { raw: MAX_RAW }
        } else if side < 0 {
            Fixed { raw: -MAX_RAW }
        } else {
            Fixed { raw: 0 }
        }
    }

    /// The number multiplied by the integer `k`, saturating.
    pub fn multiple(self, k: i64) -> (r: Fixed)
        ensures
            r@ == multiple_spec(self@, k as int),
    {
        let a: i128 = self.raw as i128;
        let b: i128 = k as i128;
        assert(-0x4000_0000_0000_0000_0000_0000_0000_0000 <= a * b
            <= 0x4000_0000_0000_0000_0000_0000_0000_0000) by (nonlinear_arith)
            requires
                -0x8000_0000_0000_0000 <= a <= 0x8000_0000_0000_0000,
                -0x8000_0000_0000_0000 <= b <= 0x8000_0000_0000_0000,
        ;
        Fixed::from_wide(a * b)
    }

    /// The number divided by the integer `k`, rounded toward zero. Dividing
    /// by zero gives the bound on the side of the dividend.
    pub fn fraction(self, k: i64) -> (r: Fixed)
        ensures
            r@ == fraction_spec(self@, k as int),
    {
        if k == 0 {
            Fixed::bound_toward(self.raw)
        } else {
            Fixed::from_wide(wide_quotient(self.raw as i128, k as i128))
        }
    }

    /// The number held between two bounds given in either order.
    pub fn clamp(self, start: Fixed, end: Fixed) -> (r: Fixed)
        ensures
            r@ == clamp_spec(self@, start@, end@),
    {
        if start.raw <= end.raw {
            if self.raw < start.raw {
                start
            } else if self.raw > end.raw {
                end
            } else {
                self
            }
        } else {
            if self.raw < end.raw {
                end
            } else if self.raw > start.raw {
                start
            } else {
                self
            }
        }
    }

    /// The largest integer not above the number.
    pub fn floor(self) -> (r: i64)
        ensures
            r == self@ / (ONE_RAW as int),
            -0x8000_0000 <= r < 0x8000_0000,
    {
        proof {
            use_type_invariant(&self);
        }
        if self.raw >= 0 {
            self.raw / 0x1_0000_0000
        } else {
            -((-(self.raw + 1)) / 0x1_0000_0000) - 1
        }
    }

    /// What the number exceeds its floor by, between zero and one.
    pub fn fract(self) -> (r: Fixed)
        ensures
            r@ == self@ % (ONE_RAW as int),
    {
        let whole: i64 = self.floor();
        let part: i128 = self.raw as i128 - (whole as i128) * 0x1_0000_0000;
        Fixed::from_wide(part)
    }
}

} // verus!
