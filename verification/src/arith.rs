//! Divisibility and greatest common divisors.
//!
//! The canonical form of a rational (lowest terms, positive denominator)
//! rests on the gcd of the numerator's magnitude and the denominator.  This
//! module defines `divides` and Euclid's `gcd`, proves the properties that
//! the normalisation proofs need, and provides a verified executable gcd.

use vstd::arithmetic::div_mod::{lemma_div_multiples_vanish, lemma_fundamental_div_mod};
use vstd::prelude::*;

verus! {

/// `d` divides `n`: some integer multiple of `d` equals `n`.
pub open spec fn divides(d: int, n: int) -> bool {
    exists|k: int| n == #[trigger] (d * k)
}

/// Greatest common divisor of two naturals, by Euclid's algorithm.
/// `gcd(0, 0) == 0`; otherwise the result is positive.
pub open spec fn gcd(a: nat, b: nat) -> nat
    decreases b,
{
    if b == 0 {
        a
    } else {
        gcd(b, a % b)
    }
}

/// The gcd of two naturals divides both of them.
pub proof fn lemma_gcd_divides(a: nat, b: nat)
    ensures
        divides(gcd(a, b) as int, a as int),
        divides(gcd(a, b) as int, b as int),
    decreases b,
{
    if b == 0 {
        assert(a as int == (a as int) * 1);
        assert(0int == (a as int) * 0);
    } else {
        lemma_gcd_divides(b, a % b);
        let g = gcd(b, a % b) as int;
        let k1 = choose|k: int| b as int == #[trigger] (g * k);
        let k2 = choose|k: int| (a % b) as int == #[trigger] (g * k);
        lemma_fundamental_div_mod(a as int, b as int);
        let q = a as int / b as int;
        assert(a as int == g * (k1 * q + k2)) by (nonlinear_arith)
            requires
                b as int == g * k1,
                (a % b) as int == g * k2,
                a as int == (b as int) * q + (a % b) as int,
        ;
    }
}

/// If either argument is positive, so is the gcd.
pub proof fn lemma_gcd_pos(a: nat, b: nat)
    requires
        a > 0 || b > 0,
    ensures
        gcd(a, b) > 0,
    decreases b,
{
    if b != 0 {
        lemma_gcd_pos(b, a % b);
    }
}

/// Any common divisor of `a` and `b` divides `gcd(a, b)`.
pub proof fn lemma_common_divisor_divides_gcd(a: nat, b: nat, c: int)
    requires
        divides(c, a as int),
        divides(c, b as int),
    ensures
        divides(c, gcd(a, b) as int),
    decreases b,
{
    if b == 0 {
    } else {
        let ka = choose|k: int| a as int == #[trigger] (c * k);
        let kb = choose|k: int| b as int == #[trigger] (c * k);
        lemma_fundamental_div_mod(a as int, b as int);
        let q = a as int / b as int;
        assert((a % b) as int == c * (ka - kb * q)) by (nonlinear_arith)
            requires
                a as int == c * ka,
                b as int == c * kb,
                (a % b) as int == a as int - (b as int) * q,
        ;
        lemma_common_divisor_divides_gcd(b, a % b, c);
    }
}

/// A positive divisor goes into its (positive) multiple a whole number of
/// times: from `n == d * k` and `d > 0` it follows that `n / d == k`.
pub proof fn lemma_div_exact(n: int, d: int, k: int)
    requires
        d > 0,
        n == d * k,
    ensures
        n / d == k,
{
    lemma_div_multiples_vanish(k, d);
}

/// Dividing two naturals by their (positive) gcd leaves coprime quotients.
pub proof fn lemma_coprime_quotients(a: nat, b: nat)
    requires
        gcd(a, b) > 0,
    ensures
        gcd((a as int / gcd(a, b) as int) as nat, (b as int / gcd(a, b) as int) as nat) == 1,
{
    let g = gcd(a, b) as int;
    lemma_gcd_divides(a, b);
    let ka = choose|k: int| a as int == #[trigger] (g * k);
    let kb = choose|k: int| b as int == #[trigger] (g * k);
    lemma_div_exact(a as int, g, ka);
    lemma_div_exact(b as int, g, kb);
    assert(ka >= 0) by (nonlinear_arith)
        requires
            g > 0,
            a as int == g * ka,
            a as int >= 0,
    ;
    assert(kb >= 0) by (nonlinear_arith)
        requires
            g > 0,
            b as int == g * kb,
            b as int >= 0,
    ;
    let h = gcd(ka as nat, kb as nat);
    if ka > 0 || kb > 0 {
        lemma_gcd_pos(ka as nat, kb as nat);
    } else {
        assert(a as int == g * 0);
        assert(a == 0 && b == 0);
        assert(gcd(a, b) == 0);
    }
    assert(h > 0);
    lemma_gcd_divides(ka as nat, kb as nat);
    let ma = choose|k: int| ka == #[trigger] (h as int * k);
    let mb = choose|k: int| kb == #[trigger] (h as int * k);
    assert(a as int == (g * h as int) * ma) by (nonlinear_arith)
        requires
            a as int == g * ka,
            ka == h as int * ma,
    ;
    assert(b as int == (g * h as int) * mb) by (nonlinear_arith)
        requires
            b as int == g * kb,
            kb == h as int * mb,
    ;
    lemma_common_divisor_divides_gcd(a, b, g * h as int);
    let m = choose|k: int| g == #[trigger] ((g * h as int) * k);
    assert(h as int * m == 1) by (nonlinear_arith)
        requires
            g > 0,
            g == (g * h as int) * m,
    ;
    if h >= 2 {
        if m >= 1 {
            assert(h as int * m >= 2) by (nonlinear_arith)
                requires
                    h as int >= 2,
                    m >= 1,
            ;
        } else {
            assert(h as int * m <= 0) by (nonlinear_arith)
                requires
                    h as int >= 2,
                    m <= 0,
            ;
        }
    }
    assert(h == 1);
}

/// The gcd of zero and `b` is `b`.
pub proof fn lemma_gcd_zero_left(b: nat)
    ensures
        gcd(0, b) == b,
{
    if b != 0 {
        assert(0nat % b == 0) by (nonlinear_arith)
            requires
                b > 0,
        ;
        assert(gcd(0, b) == gcd(b, 0));
    }
}

/// The gcd of a positive natural with itself is that natural.
pub proof fn lemma_gcd_same(a: nat)
    requires
        a > 0,
    ensures
        gcd(a, a) == a,
{
    assert(a % a == 0) by (nonlinear_arith)
        requires
            a > 0,
    ;
    assert(gcd(a, a) == gcd(a, 0));
}

/// The gcd of any natural with one is one.
pub proof fn lemma_gcd_one_right(a: nat)
    ensures
        gcd(a, 1) == 1,
{
    assert(a % 1 == 0) by (nonlinear_arith);
    assert(gcd(a, 1) == gcd(1, 0));
}

/// Euclid's algorithm, executably, on non-negative `i128` values.
pub fn gcd_i128(a: i128, b: i128) -> (g: i128)
    requires
        a >= 0,
        b >= 0,
    ensures
        g as nat == gcd(a as nat, b as nat),
        g >= 0,
{
    let mut x: i128 = a;
    let mut y: i128 = b;
    while y != 0
        invariant
            x >= 0,
            y >= 0,
            gcd(x as nat, y as nat) == gcd(a as nat, b as nat),
        decreases y,
    {
        let t = x % y;
        assert(t >= 0 && t < y) by (nonlinear_arith)
            requires
                y > 0,
                x >= 0,
                t == x % y,
        ;
        assert(gcd(y as nat, t as nat) == gcd(x as nat, y as nat)) by {
            assert((x as nat) % (y as nat) == t as nat);
        }
        x = y;
        y = t;
    }
    x
}

} // verus!
