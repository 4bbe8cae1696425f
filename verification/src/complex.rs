//! A fixed-point complex-number value type.
//!
//! A component with numeric value `v` is stored as the integer `v * SCALE`,
//! so the representable grid has spacing `1 / SCALE`. All operations are
//! exact integer arithmetic; the product of two components is rescaled with
//! a division that truncates toward zero, so negating an operand exactly
//! negates the result.

use vstd::prelude::*;

verus! {

/// Number of fixed-point units that represent the numeric value `1.0`.
pub const SCALE: i64 = 1073741824;

/// Mathematical model of a complex value: unbounded integer components,
/// in the same fixed-point units as the executable type.
pub ghost struct Cpx {
    pub real: int,
    pub imaginary: int,
}

/// Division truncating toward zero (the rounding used to rescale products),
/// defined for positive divisors.
pub open spec fn tdiv(x: int, d: int) -> int {
    if x >= 0 {
        x / d
    } else {
        -((-x) / d)
    }
}

pub open spec fn czero() -> Cpx {
    Cpx { real: 0, imaginary: 0 }
}

pub open spec fn cadd(a: Cpx, b: Cpx) -> Cpx {
    Cpx { real: a.real + b.real, imaginary: a.imaginary + b.imaginary }
}

pub open spec fn csub(a: Cpx, b: Cpx) -> Cpx {
    Cpx { real: a.real - b.real, imaginary: a.imaginary - b.imaginary }
}

pub open spec fn cconj(a: Cpx) -> Cpx {
    Cpx { real: a.real, imaginary: -a.imaginary }
}

/// Both components negated.
pub open spec fn cneg(a: Cpx) -> Cpx {
    Cpx { real: -a.real, imaginary: -a.imaginary }
}

/// The complex product `(ac - bd, ad + bc)`, rescaled back to fixed point.
pub open spec fn cmul(a: Cpx, b: Cpx) -> Cpx {
    Cpx {
        real: tdiv(a.real * b.real - a.imaginary * b.imaginary, SCALE as int),
        imaginary: tdiv(a.real * b.imaginary + a.imaginary * b.real, SCALE as int),
    }
}

/// Both components scaled by the fixed-point factor `s`.
pub open spec fn cscale(a: Cpx, s: int) -> Cpx {
    Cpx {
        real: tdiv(a.real * s, SCALE as int),
        imaginary: tdiv(a.imaginary * s, SCALE as int),
    }
}

#[derive(Clone, Copy, PartialEq, Eq, Structural, Debug)]
pub struct ComplexNumber {
    pub real: i64,
    pub imaginary: i64,
}

impl View for ComplexNumber {
    type V = Cpx;

    open spec fn view(&self) -> Cpx {
        Cpx { real: self.real as int, imaginary: self.imaginary as int }
    }
}

/// The models of a sequence of complex values.
pub open spec fn vseq(s: Seq<ComplexNumber>) -> Seq<Cpx> {
    s.map_values(|c: ComplexNumber| c@)
}

/// Truncating division of an exact multiple recovers the factor.
pub proof fn lemma_tdiv_exact(a: int, d: int)
    requires
        d > 0,
    ensures
        tdiv(a * d, d) == a,
{
    if a >= 0 {
        assert(a * d >= 0) by (nonlinear_arith)
            requires a >= 0 && d > 0;
        vstd::arithmetic::div_mod::lemma_div_multiples_vanish(a, d);
        assert(a * d == d * a);
        assert((a * d) / d == a);
    } else {
        assert(a * d < 0) by (nonlinear_arith)
            requires a < 0 && d > 0;
        assert(-(a * d) == (-a) * d) by (nonlinear_arith);
        vstd::arithmetic::div_mod::lemma_div_multiples_vanish(-a, d);
        assert((d * (-a)) / d == -a);
        assert((-(a * d)) / d == -a);
    }
}

/// A dividend between `lo * d` and `hi * d` has its truncated quotient
/// between `lo` and `hi`.
pub proof fn lemma_tdiv_bounds(x: int, d: int, lo: int, hi: int)
    requires
        d > 0,
        lo <= 0 <= hi,
        lo * d <= x <= hi * d,
    ensures
        lo <= tdiv(x, d) <= hi,
{
    if x >= 0 {
        vstd::arithmetic::div_mod::lemma_div_pos_is_pos(x, d);
        vstd::arithmetic::div_mod::lemma_div_is_ordered(x, hi * d, d);
        vstd::arithmetic::div_mod::lemma_div_multiples_vanish(hi, d);
        assert(hi * d == d * hi) by (nonlinear_arith);
        assert((hi * d) / d == hi);
    } else {
        assert(-x <= (-lo) * d) by (nonlinear_arith)
            requires lo * d <= x;
        vstd::arithmetic::div_mod::lemma_div_pos_is_pos(-x, d);
        vstd::arithmetic::div_mod::lemma_div_is_ordered(-x, (-lo) * d, d);
        vstd::arithmetic::div_mod::lemma_div_multiples_vanish(-lo, d);
        assert((-lo) * d == d * (-lo)) by (nonlinear_arith);
        assert(((-lo) * d) / d == -lo);
    }
}

/// Truncation toward zero commutes with negation.
pub proof fn lemma_tdiv_neg(x: int, d: int)
    requires
        d > 0,
    ensures
        tdiv(-x, d) == -tdiv(x, d),
{
}

/// Conjugation distributes over the fixed-point product exactly, because
/// the rescaling truncates toward zero.
pub proof fn lemma_cmul_conj(a: Cpx, b: Cpx)
    ensures
        cmul(cconj(a), cconj(b)) == cconj(cmul(a, b)),
{
    let s = SCALE as int;
    assert(a.real * b.real - (-a.imaginary) * (-b.imaginary) == a.real * b.real - a.imaginary
        * b.imaginary) by (nonlinear_arith);
    assert(a.real * (-b.imaginary) + (-a.imaginary) * b.real == -(a.real * b.imaginary
        + a.imaginary * b.real)) by (nonlinear_arith);
    lemma_tdiv_neg(a.real * b.imaginary + a.imaginary * b.real, s);
}

/// Negating one factor negates the fixed-point product exactly.
pub proof fn lemma_cmul_neg(a: Cpx, b: Cpx)
    ensures
        cmul(cneg(a), b) == cneg(cmul(a, b)),
{
    let s = SCALE as int;
    assert((-a.real) * b.real - (-a.imaginary) * b.imaginary == -(a.real * b.real - a.imaginary
        * b.imaginary)) by (nonlinear_arith);
    assert((-a.real) * b.imaginary + (-a.imaginary) * b.real == -(a.real * b.imaginary
        + a.imaginary * b.real)) by (nonlinear_arith);
    lemma_tdiv_neg(a.real * b.real - a.imaginary * b.imaginary, s);
    lemma_tdiv_neg(a.real * b.imaginary + a.imaginary * b.real, s);
}

/// Negating the other factor negates the fixed-point product exactly.
pub proof fn lemma_cmul_neg_right(a: Cpx, b: Cpx)
    ensures
        cmul(a, cneg(b)) == cneg(cmul(a, b)),
{
    let s = SCALE as int;
    assert(a.real * (-b.real) - a.imaginary * (-b.imaginary) == -(a.real * b.real - a.imaginary
        * b.imaginary)) by (nonlinear_arith);
    assert(a.real * (-b.imaginary) + a.imaginary * (-b.real) == -(a.real * b.imaginary
        + a.imaginary * b.real)) by (nonlinear_arith);
    lemma_tdiv_neg(a.real * b.real - a.imaginary * b.imaginary, s);
    lemma_tdiv_neg(a.real * b.imaginary + a.imaginary * b.real, s);
}

/// Rescales a double-width product back to fixed point, truncating toward
/// zero exactly as `tdiv` describes.
fn div_scale(x: i128) -> (r: i64)
    requires
        (i64::MIN as int) * (SCALE as int) <= x <= (i64::MAX as int) * (SCALE as int),
    ensures
        r as int == tdiv(x as int, SCALE as int),
{
    proof {
        lemma_tdiv_bounds(x as int, SCALE as int, i64::MIN as int, i64::MAX as int);
    }
    match x.checked_div(SCALE as i128) {
        Some(q) => q as i64,
        None => {
            proof {
                assert(false);
            }
            0
        },
    }
}

impl ComplexNumber {
    /// A complex value with the given real component and no imaginary part.
    pub fn from_real(value: i64) -> (r: Self)
        ensures
            r.real == value,
            r.imaginary == 0,
    {
        Self { real: value, imaginary: 0 }
    }

    /// The additive identity.
    pub fn zero() -> (r: Self)
        ensures
            r@ == czero(),
    {
        Self { real: 0, imaginary: 0 }
    }

    /// The complex conjugate: same real component, negated imaginary one.
    pub fn conjugate(&self) -> (r: Self)
        requires
            self.imaginary > i64::MIN,
        ensures
            r@ == cconj(self@),
    {
        Self { real: self.real, imaginary: -self.imaginary }
    }

    /// Componentwise sum.
    pub fn add(&self, rhs: &Self) -> (r: Self)
        requires
            i64::MIN <= self.real + rhs.real <= i64::MAX,
            i64::MIN <= self.imaginary + rhs.imaginary <= i64::MAX,
        ensures
            r@ == cadd(self@, rhs@),
    {
        Self { real: self.real + rhs.real, imaginary: self.imaginary + rhs.imaginary }
    }

    /// Componentwise difference.
    pub fn sub(&self, rhs: &Self) -> (r: Self)
        requires
            i64::MIN <= self.real - rhs.real <= i64::MAX,
            i64::MIN <= self.imaginary - rhs.imaginary <= i64::MAX,
        ensures
            r@ == csub(self@, rhs@),
    {
        Self { real: self.real - rhs.real, imaginary: self.imaginary - rhs.imaginary }
    }

    /// The complex product, rescaled back to fixed point.
    pub fn mul(&self, rhs: &Self) -> (r: Self)
        requires
            (i64::MIN as int) * (SCALE as int)
                <= self.real * rhs.real - self.imaginary * rhs.imaginary
                <= (i64::MAX as int) * (SCALE as int),
            (i64::MIN as int) * (SCALE as int)
                <= self.real * rhs.imaginary + self.imaginary * rhs.real
                <= (i64::MAX as int) * (SCALE as int),
        ensures
            r@ == cmul(self@, rhs@),
    {
        let ar = self.real as i128;
        let ai = self.imaginary as i128;
        let br = rhs.real as i128;
        let bi = rhs.imaginary as i128;
        proof {
            assert(ar * br <= 0x4000_0000_0000_0000_0000_0000_0000_0000int
                && ar * br >= -0x4000_0000_0000_0000_0000_0000_0000_0000int) by (nonlinear_arith)
                requires
                    -0x8000_0000_0000_0000int <= ar <= 0x8000_0000_0000_0000int,
                    -0x8000_0000_0000_0000int <= br <= 0x8000_0000_0000_0000int;
            assert(ai * bi <= 0x4000_0000_0000_0000_0000_0000_0000_0000int
                && ai * bi >= -0x4000_0000_0000_0000_0000_0000_0000_0000int) by (nonlinear_arith)
                requires
                    -0x8000_0000_0000_0000int <= ai <= 0x8000_0000_0000_0000int,
                    -0x8000_0000_0000_0000int <= bi <= 0x8000_0000_0000_0000int;
            assert(ar * bi <= 0x4000_0000_0000_0000_0000_0000_0000_0000int
                && ar * bi >= -0x4000_0000_0000_0000_0000_0000_0000_0000int) by (nonlinear_arith)
                requires
                    -0x8000_0000_0000_0000int <= ar <= 0x8000_0000_0000_0000int,
                    -0x8000_0000_0000_0000int <= bi <= 0x8000_0000_0000_0000int;
            assert(ai * br <= 0x4000_0000_0000_0000_0000_0000_0000_0000int
                && ai * br >= -0x4000_0000_0000_0000_0000_0000_0000_0000int) by (nonlinear_arith)
                requires
                    -0x8000_0000_0000_0000int <= ai <= 0x8000_0000_0000_0000int,
                    -0x8000_0000_0000_0000int <= br <= 0x8000_0000_0000_0000int;
        }
        let p1 = ar * br;
        let p2 = ai * bi;
        let p3 = ar * bi;
        let p4 = ai * br;
        Self { real: div_scale(p1 - p2), imaginary: div_scale(p3 + p4) }
    }

    /// Both components scaled by the fixed-point factor `s` (so `s == SCALE`
    /// leaves the value unchanged and `s == 0` yields zero).
    pub fn mul_scalar(&self, s: i64) -> (r: Self)
        requires
            (i64::MIN as int) * (SCALE as int)
                <= self.real * s
                <= (i64::MAX as int) * (SCALE as int),
            (i64::MIN as int) * (SCALE as int)
                <= self.imaginary * s
                <= (i64::MAX as int) * (SCALE as int),
        ensures
            r@ == cscale(self@, s as int),
    {
        let ar = self.real as i128;
        let ai = self.imaginary as i128;
        let sw = s as i128;
        proof {
            assert(ar * sw <= 0x4000_0000_0000_0000_0000_0000_0000_0000int
                && ar * sw >= -0x4000_0000_0000_0000_0000_0000_0000_0000int) by (nonlinear_arith)
                requires
                    -0x8000_0000_0000_0000int <= ar <= 0x8000_0000_0000_0000int,
                    -0x8000_0000_0000_0000int <= sw <= 0x8000_0000_0000_0000int;
            assert(ai * sw <= 0x4000_0000_0000_0000_0000_0000_0000_0000int
                && ai * sw >= -0x4000_0000_0000_0000_0000_0000_0000_0000int) by (nonlinear_arith)
                requires
                    -0x8000_0000_0000_0000int <= ai <= 0x8000_0000_0000_0000int,
                    -0x8000_0000_0000_0000int <= sw <= 0x8000_0000_0000_0000int;
        }
        let pr = ar * sw;
        let pi = ai * sw;
        Self { real: div_scale(pr), imaginary: div_scale(pi) }
    }

    /// The magnitude `sqrt(real^2 + imaginary^2)`, rounded down onto the
    /// fixed-point grid: the result is the largest integer whose square
    /// does not exceed the exact squared magnitude.
    pub fn magnitude(&self) -> (r: i64)
        requires
            -0x4000_0000_0000_0000 <= self.real <= 0x4000_0000_0000_0000,
            -0x4000_0000_0000_0000 <= self.imaginary <= 0x4000_0000_0000_0000,
        ensures
            r >= 0,
            r * r <= self.real * self.real + self.imaginary * self.imaginary,
            self.real * self.real + self.imaginary * self.imaginary < (r + 1) * (r + 1),
    {
        let ar = self.real as i128;
        let ai = self.imaginary as i128;
        proof {
            assert(0 <= ar * ar <= 0x1000_0000_0000_0000_0000_0000_0000_0000int)
                by (nonlinear_arith)
                requires -0x4000_0000_0000_0000int <= ar <= 0x4000_0000_0000_0000int;
            assert(0 <= ai * ai <= 0x1000_0000_0000_0000_0000_0000_0000_0000int)
                by (nonlinear_arith)
                requires -0x4000_0000_0000_0000int <= ai <= 0x4000_0000_0000_0000int;
        }
        let m: u128 = (ar * ar + ai * ai) as u128;
        let mut lo: u128 = 0;
        let mut hi: u128 = 0x1_0000_0000_0000_0000;
        proof {
            assert((hi as int) * (hi as int) > m as int) by (nonlinear_arith)
                requires
                    hi == 0x1_0000_0000_0000_0000u128,
                    m <= 0x2000_0000_0000_0000_0000_0000_0000_0000u128;
        }
        while hi - lo > 1
            invariant
                lo < hi <= 0x1_0000_0000_0000_0000u128,
                (lo as int) * (lo as int) <= m as int,
                (m as int) < (hi as int) * (hi as int),
                m <= 0x2000_0000_0000_0000_0000_0000_0000_0000u128,
            decreases hi - lo,
        {
            let mid = lo + (hi - lo) / 2;
            proof {
                assert((mid as int) * (mid as int)
                    <= 0xffff_ffff_ffff_ffff_0000_0000_0000_0000int) by (nonlinear_arith)
                    requires 0 <= mid <= 0xffff_ffff_ffff_ffffu128;
            }
            if mid * mid <= m {
                lo = mid;
            } else {
                hi = mid;
            }
        }
        proof {
            assert(lo < 0x8000_0000_0000_0000u128) by (nonlinear_arith)
                requires
                    (lo as int) * (lo as int) <= m as int,
                    m <= 0x2000_0000_0000_0000_0000_0000_0000_0000u128;
            assert((hi as int) * (hi as int) == ((lo + 1) as int) * ((lo + 1) as int));
        }
        lo as i64
    }

    /// The squared magnitude `real^2 + imaginary^2`, in squared fixed-point
    /// units; exact, with no rescaling.
    pub fn magnitude_sq(&self) -> (m: i128)
        requires
            self.real > i64::MIN,
            self.imaginary > i64::MIN,
        ensures
            m == self.real * self.real + self.imaginary * self.imaginary,
    {
        let ar = self.real as i128;
        let ai = self.imaginary as i128;
        proof {
            assert(0 <= ar * ar <= 0x3fff_ffff_ffff_ffff_0000_0000_0000_0001int) by (nonlinear_arith)
                requires -0x7fff_ffff_ffff_ffffint <= ar <= 0x7fff_ffff_ffff_ffffint;
            assert(0 <= ai * ai <= 0x3fff_ffff_ffff_ffff_0000_0000_0000_0001int) by (nonlinear_arith)
                requires -0x7fff_ffff_ffff_ffffint <= ai <= 0x7fff_ffff_ffff_ffffint;
        }
        ar * ar + ai * ai
    }
}

} // verus!
