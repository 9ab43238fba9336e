//! Exact rational numbers in canonical form.
//!
//! A `Rational` is a fraction of two `i32` values kept in lowest terms with a
//! positive denominator; zero is `0/1`.  All arithmetic is exact: the checked
//! operations normalise through 128-bit intermediates and return `None`
//! exactly when the canonical result does not fit the 32-bit fields.

use crate::arith::{
    gcd, gcd_i128, lemma_coprime_quotients, lemma_div_exact, lemma_gcd_divides,
    lemma_gcd_one_right, lemma_gcd_pos, lemma_gcd_same, lemma_gcd_zero_left,
};
use vstd::math::abs;
use vstd::prelude::*;

verus! {

/// A value representable by the signed 32-bit numerator/denominator fields.
pub open spec fn fits_i32(v: int) -> bool {
    -0x8000_0000 <= v && v <= 0x7fff_ffff
}

/// Both components of a numerator/denominator pair fit the 32-bit fields.
pub open spec fn rat_fits(p: (int, int)) -> bool {
    fits_i32(p.0) && fits_i32(p.1)
}

/// Canonical form: positive denominator, numerator and denominator coprime.
/// Zero is represented as `(0, 1)` (since `gcd(0, d) == d`).
pub open spec fn rat_canon(p: (int, int)) -> bool {
    p.1 >= 1 && gcd(abs(p.0), p.1 as nat) == 1
}

/// The canonical (lowest terms, positive denominator) representative of the
/// fraction `n / d`.  Total; meaningful whenever `d != 0`.
pub open spec fn rat_norm(n: int, d: int) -> (int, int) {
    let n1: int = if d < 0 {
        -n
    } else {
        n
    };
    let d1: int = if d < 0 {
        -d
    } else {
        d
    };
    let g = gcd(abs(n1), d1 as nat) as int;
    if g == 0 {
        (0, 1)
    } else {
        (n1 / g, d1 / g)
    }
}

/// The rational zero, `0/1`.
pub open spec fn rat_zero() -> (int, int) {
    (0, 1)
}

/// The rational one, `1/1`.
pub open spec fn rat_one() -> (int, int) {
    (1, 1)
}

/// The canonical product of two rationals.
pub open spec fn rat_mul(a: (int, int), b: (int, int)) -> (int, int) {
    rat_norm(a.0 * b.0, a.1 * b.1)
}

/// The canonical difference `a - b` of two rationals.
pub open spec fn rat_sub(a: (int, int), b: (int, int)) -> (int, int) {
    rat_norm(a.0 * b.1 - b.0 * a.1, a.1 * b.1)
}

/// The canonical quotient `a / b` of two rationals; meaningful for `b.0 != 0`.
pub open spec fn rat_div(a: (int, int), b: (int, int)) -> (int, int) {
    rat_norm(a.0 * b.1, a.1 * b.0)
}

/// The product of two values in `i32` range stays well inside `i128` range.
pub proof fn lemma_mul_i32_bounds(x: int, y: int)
    requires
        fits_i32(x),
        fits_i32(y),
    ensures
        -0x4000_0000_0000_0000 <= x * y <= 0x4000_0000_0000_0000,
{
    assert(-0x4000_0000_0000_0000 <= x * y <= 0x4000_0000_0000_0000) by (nonlinear_arith)
        requires
            -0x8000_0000 <= x <= 0x7fff_ffff,
            -0x8000_0000 <= y <= 0x7fff_ffff,
    ;
}

/// Normalising any fraction with a nonzero denominator yields canonical form.
pub proof fn lemma_norm_canon(n: int, d: int)
    requires
        d != 0,
    ensures
        rat_canon(rat_norm(n, d)),
{
    let n1: int = if d < 0 {
        -n
    } else {
        n
    };
    let d1: int = if d < 0 {
        -d
    } else {
        d
    };
    let g = gcd(abs(n1), d1 as nat);
    lemma_gcd_pos(abs(n1), d1 as nat);
    lemma_gcd_divides(abs(n1), d1 as nat);
    let ka = choose|k: int| abs(n1) as int == #[trigger] (g as int * k);
    let kd = choose|k: int| d1 == #[trigger] (g as int * k);
    lemma_div_exact(abs(n1) as int, g as int, ka);
    lemma_div_exact(d1, g as int, kd);
    assert(ka >= 0) by (nonlinear_arith)
        requires
            g > 0,
            abs(n1) as int == g as int * ka,
            abs(n1) as int >= 0,
    ;
    assert(kd >= 1) by (nonlinear_arith)
        requires
            g > 0,
            d1 == g as int * kd,
            d1 >= 1,
    ;
    if n1 < 0 {
        assert(n1 == g as int * (-ka)) by (nonlinear_arith)
            requires
                n1 == -(abs(n1) as int),
                abs(n1) as int == g as int * ka,
        ;
        lemma_div_exact(n1, g as int, -ka);
        assert(abs(n1 / g as int) == ka as nat);
    } else {
        assert(n1 / g as int == ka);
    }
    lemma_coprime_quotients(abs(n1), d1 as nat);
    assert(gcd(ka as nat, kd as nat) == 1);
}

/// A fraction already in canonical form normalises to itself.
pub proof fn lemma_norm_of_canon(p: (int, int))
    requires
        rat_canon(p),
    ensures
        rat_norm(p.0, p.1) == p,
{
    lemma_div_exact(p.0, 1, p.0);
    lemma_div_exact(p.1, 1, p.1);
}

/// Zero over any positive denominator normalises to the rational zero.
pub proof fn lemma_norm_zero(d: int)
    requires
        d >= 1,
    ensures
        rat_norm(0, d) == rat_zero(),
{
    lemma_gcd_zero_left(d as nat);
    lemma_div_exact(0, d, 0);
    lemma_div_exact(d, d, 1);
}

/// A nonzero value over itself normalises to the rational one.
pub proof fn lemma_norm_same(k: int)
    requires
        k != 0,
    ensures
        rat_norm(k, k) == rat_one(),
{
    let m: int = if k < 0 {
        -k
    } else {
        k
    };
    lemma_gcd_same(m as nat);
    lemma_div_exact(m, m, 1);
}

/// Multiplying a canonical rational by one on the right leaves it unchanged.
pub proof fn lemma_rat_mul_one_right(p: (int, int))
    requires
        rat_canon(p),
    ensures
        rat_mul(p, rat_one()) == p,
{
    lemma_norm_of_canon(p);
}

/// Multiplying any canonical rational by zero on the left yields zero.
pub proof fn lemma_rat_mul_zero_left(p: (int, int))
    requires
        rat_canon(p),
    ensures
        rat_mul(rat_zero(), p) == rat_zero(),
{
    lemma_norm_zero(p.1);
}

/// Subtracting zero from a canonical rational leaves it unchanged.
pub proof fn lemma_rat_sub_zero_right(p: (int, int))
    requires
        rat_canon(p),
    ensures
        rat_sub(p, rat_zero()) == p,
{
    lemma_norm_of_canon(p);
}

/// Subtracting a canonical rational from itself yields zero.
pub proof fn lemma_rat_sub_self(p: (int, int))
    requires
        rat_canon(p),
    ensures
        rat_sub(p, p) == rat_zero(),
{
    assert(p.1 * p.1 >= 1) by (nonlinear_arith)
        requires
            p.1 >= 1,
    ;
    lemma_norm_zero(p.1 * p.1);
}

/// Dividing a nonzero canonical rational by itself yields one.
pub proof fn lemma_rat_div_self(p: (int, int))
    requires
        rat_canon(p),
        p.0 != 0,
    ensures
        rat_div(p, p) == rat_one(),
{
    assert(p.0 * p.1 != 0) by (nonlinear_arith)
        requires
            p.0 != 0,
            p.1 >= 1,
    ;
    assert(p.1 * p.0 == p.0 * p.1);
    lemma_norm_same(p.0 * p.1);
}

/// Dividing a canonical rational by one leaves it unchanged.
pub proof fn lemma_rat_div_one(p: (int, int))
    requires
        rat_canon(p),
    ensures
        rat_div(p, rat_one()) == p,
{
    lemma_norm_of_canon(p);
}

/// An exact rational number: numerator over denominator, kept in lowest
/// terms with a positive denominator.
#[derive(Clone, Copy, PartialEq, Eq, Structural, Debug, Hash)]
pub struct Rational {
    num: i32,
    den: i32,
}

impl View for Rational {
    type V = (int, int);

    closed spec fn view(&self) -> (int, int) {
        (self.num as int, self.den as int)
    }
}

impl Rational {
    /// The structural invariant: the stored pair is canonical.
    pub open spec fn wf(self) -> bool {
        rat_canon(self@)
    }

    /// The rational zero, `0/1`.
    pub fn zero() -> (r: Rational)
        ensures
            r.wf(),
            r@ == rat_zero(),
    {
        proof {
            lemma_gcd_one_right(0);
        }
        Rational { num: 0, den: 1 }
    }

    /// The rational one, `1/1`.
    pub fn one() -> (r: Rational)
        ensures
            r.wf(),
            r@ == rat_one(),
    {
        proof {
            lemma_gcd_one_right(1);
        }
        Rational { num: 1, den: 1 }
    }

    /// The rational with the value of the given integer.
    pub fn from_int(n: i32) -> (r: Rational)
        ensures
            r.wf(),
            r@ == (n as int, 1int),
    {
        proof {
            lemma_gcd_one_right(abs(n as int));
        }
        Rational { num: n, den: 1 }
    }

    /// The canonical rational `n / d`, or `None` when `d` is zero or the
    /// canonical numerator does not fit `i32` (only `n == i32::MIN` with a
    /// negative `d` can overflow that way).
    pub fn new(n: i32, d: i32) -> (r: Option<Rational>)
        ensures
            r is Some <==> (d != 0 && rat_fits(rat_norm(n as int, d as int))),
            r matches Some(q) ==> q.wf() && q@ == rat_norm(n as int, d as int),
    {
        if d == 0 {
            None
        } else {
            normalize_parts(n as i128, d as i128)
        }
    }

    /// The numerator of the canonical form.
    pub fn numer(&self) -> (r: i32)
        ensures
            r as int == self@.0,
    {
        self.num
    }

    /// The denominator of the canonical form (always positive).
    pub fn denom(&self) -> (r: i32)
        ensures
            r as int == self@.1,
    {
        self.den
    }

    /// Whether this rational is zero.
    pub fn is_zero(&self) -> (r: bool)
        ensures
            r <==> self@.0 == 0,
    {
        self.num == 0
    }

    /// The exact product, or `None` when it does not fit the 32-bit fields.
    pub fn checked_mul(self, other: Rational) -> (r: Option<Rational>)
        requires
            self.wf(),
            other.wf(),
        ensures
            r is Some <==> rat_fits(rat_mul(self@, other@)),
            r matches Some(q) ==> q.wf() && q@ == rat_mul(self@, other@),
    {
        proof {
            lemma_mul_i32_bounds(self@.0, other@.0);
            lemma_mul_i32_bounds(self@.1, other@.1);
        }
        let n = (self.num as i128) * (other.num as i128);
        let d = (self.den as i128) * (other.den as i128);
        proof {
            assert(d >= 1) by (nonlinear_arith)
                requires
                    self@.1 >= 1,
                    other@.1 >= 1,
                    d == self@.1 * other@.1,
            ;
        }
        normalize_parts(n, d)
    }

    /// The exact difference `self - other`, or `None` when it does not fit.
    pub fn checked_sub(self, other: Rational) -> (r: Option<Rational>)
        requires
            self.wf(),
            other.wf(),
        ensures
            r is Some <==> rat_fits(rat_sub(self@, other@)),
            r matches Some(q) ==> q.wf() && q@ == rat_sub(self@, other@),
    {
        proof {
            lemma_mul_i32_bounds(self@.0, other@.1);
            lemma_mul_i32_bounds(other@.0, self@.1);
            lemma_mul_i32_bounds(self@.1, other@.1);
        }
        let n = (self.num as i128) * (other.den as i128) - (other.num as i128) * (self.den
            as i128);
        let d = (self.den as i128) * (other.den as i128);
        proof {
            assert(d >= 1) by (nonlinear_arith)
                requires
                    self@.1 >= 1,
                    other@.1 >= 1,
                    d == self@.1 * other@.1,
            ;
        }
        normalize_parts(n, d)
    }

    /// The exact quotient `self / other` for nonzero `other`, or `None` when
    /// it does not fit.
    pub fn checked_div(self, other: Rational) -> (r: Option<Rational>)
        requires
            self.wf(),
            other.wf(),
            other@.0 != 0,
        ensures
            r is Some <==> rat_fits(rat_div(self@, other@)),
            r matches Some(q) ==> q.wf() && q@ == rat_div(self@, other@),
    {
        proof {
            lemma_mul_i32_bounds(self@.0, other@.1);
            lemma_mul_i32_bounds(self@.1, other@.0);
        }
        let n = (self.num as i128) * (other.den as i128);
        let d = (self.den as i128) * (other.num as i128);
        proof {
            assert(d != 0) by (nonlinear_arith)
                requires
                    self@.1 >= 1,
                    other@.0 != 0,
                    d == self@.1 * other@.0,
            ;
        }
        normalize_parts(n, d)
    }
}

/// Reduce `n / d` to canonical form, returning `None` exactly when the
/// canonical pair does not fit the 32-bit fields.
fn normalize_parts(n: i128, d: i128) -> (r: Option<Rational>)
    requires
        d != 0,
        n > i128::MIN,
        d > i128::MIN,
    ensures
        r is Some <==> rat_fits(rat_norm(n as int, d as int)),
        r matches Some(q) ==> q.wf() && q@ == rat_norm(n as int, d as int),
{
    let (n1, d1): (i128, i128) = if d < 0 {
        (-n, -d)
    } else {
        (n, d)
    };
    let a: i128 = if n1 < 0 {
        -n1
    } else {
        n1
    };
    let g = gcd_i128(a, d1);
    proof {
        lemma_gcd_pos(a as nat, d1 as nat);
        lemma_gcd_divides(a as nat, d1 as nat);
    }
    let ghost ka = choose|k: int| a as int == #[trigger] (g as int * k);
    let ghost kd = choose|k: int| d1 as int == #[trigger] (g as int * k);
    proof {
        lemma_div_exact(a as int, g as int, ka);
        lemma_div_exact(d1 as int, g as int, kd);
        assert(ka >= 0) by (nonlinear_arith)
            requires
                g as int > 0,
                a as int == g as int * ka,
                a as int >= 0,
        ;
        assert(kd >= 1) by (nonlinear_arith)
            requires
                g as int > 0,
                d1 as int == g as int * kd,
                d1 as int >= 1,
        ;
        assert(ka <= a as int) by (nonlinear_arith)
            requires
                g as int >= 1,
                a as int == g as int * ka,
                ka >= 0,
        ;
        assert(kd <= d1 as int) by (nonlinear_arith)
            requires
                g as int >= 1,
                d1 as int == g as int * kd,
                kd >= 1,
        ;
        if n1 < 0 {
            assert(n1 as int == g as int * (-ka)) by (nonlinear_arith)
                requires
                    n1 as int == -(a as int),
                    a as int == g as int * ka,
            ;
            lemma_div_exact(n1 as int, g as int, -ka);
        }
        lemma_norm_canon(n as int, d as int);
    }
    let qmag = a / g;
    let qd = d1 / g;
    let qn: i128 = if n1 < 0 {
        -qmag
    } else {
        qmag
    };
    assert(qn as int == rat_norm(n as int, d as int).0);
    assert(qd as int == rat_norm(n as int, d as int).1);
    if qn < -0x8000_0000i128 || qn > 0x7fff_ffffi128 || qd > 0x7fff_ffffi128 {
        None
    } else {
        Some(Rational { num: qn as i32, den: qd as i32 })
    }
}

} // verus!
