//! Cycle arithmetic for polyrhythmic scheduling.
//!
//! Rooms whose tick periods are whole multiples of a common unit realign after the
//! least common multiple of those periods.
use vstd::prelude::*;
use vstd::arithmetic::div_mod::{lemma_fundamental_div_mod, lemma_mod_multiples_basic};

verus! {

/// Greatest common divisor, by Euclid's recursion.
pub open spec fn spec_gcd(a: nat, b: nat) -> nat
    decreases b,
{
    if b == 0 {
        a
    } else {
        spec_gcd(b, a % b)
    }
}

/// Least common multiple; zero when either argument is zero.
pub open spec fn spec_lcm(a: nat, b: nat) -> nat {
    if a == 0 || b == 0 {
        0
    } else {
        (a / spec_gcd(a, b)) * b
    }
}

/// Compute the greatest common divisor of `a` and `b`.
pub fn gcd(a: u64, b: u64) -> (res: u64)
    ensures
        res == spec_gcd(a as nat, b as nat),
{
    let ghost g = spec_gcd(a as nat, b as nat);
    let mut x = a;
    let mut y = b;
    while y != 0
        invariant
            spec_gcd(x as nat, y as nat) == g,
        decreases y,
    {
        let t = y;
        y = x % y;
        x = t;
    }
    x
}

/// Compute the least common multiple of `a` and `b` (zero when either is zero).
pub fn lcm(a: u64, b: u64) -> (res: u64)
    requires
        spec_lcm(a as nat, b as nat) <= u64::MAX,
    ensures
        res == spec_lcm(a as nat, b as nat),
{
    if a == 0 || b == 0 {
        return 0;
    }
    let g = gcd(a, b);
    proof {
        lemma_gcd_divides(a as nat, b as nat);
    }
    a / g * b
}

/// A sum of multiples of `d` is a multiple of `d`.
proof fn lemma_divides_combination(d: int, x: int, y: int, p: int, q: int)
    requires
        d > 0,
        x % d == 0,
        y % d == 0,
    ensures
        (p * x + q * y) % d == 0,
{
    lemma_fundamental_div_mod(x, d);
    lemma_fundamental_div_mod(y, d);
    let kx = x / d;
    let ky = y / d;
    assert(p * x + q * y == (p * kx + q * ky) * d) by (nonlinear_arith)
        requires
            x == d * kx,
            y == d * ky,
    ;
    lemma_mod_multiples_basic(p * kx + q * ky, d);
}

/// The greatest common divisor of two numbers, not both zero, is positive and divides both.
pub proof fn lemma_gcd_divides(a: nat, b: nat)
    requires
        a > 0 || b > 0,
    ensures
        spec_gcd(a, b) > 0,
        a % spec_gcd(a, b) == 0,
        b % spec_gcd(a, b) == 0,
    decreases b,
{
    if b == 0 {
        lemma_mod_multiples_basic(1, a as int);
    } else {
        let r = a % b;
        lemma_gcd_divides(b, r);
        let g = spec_gcd(b, r);
        lemma_fundamental_div_mod(a as int, b as int);
        lemma_divides_combination(g as int, b as int, r as int, (a / b) as int, 1);
        assert(((a / b) as int) * (b as int) + 1 * (r as int) == a as int) by (nonlinear_arith)
            requires
                a as int == (b as int) * ((a as int) / (b as int)) + (a as int) % (b as int),
                r == a % b,
        ;
    }
}

/// Every common divisor of `a` and `b` divides their greatest common divisor.
pub proof fn lemma_gcd_greatest(a: nat, b: nat, d: int)
    requires
        d > 0,
        (a as int) % d == 0,
        (b as int) % d == 0,
    ensures
        (spec_gcd(a, b) as int) % d == 0,
    decreases b,
{
    if b > 0 {
        let r = a % b;
        lemma_fundamental_div_mod(a as int, b as int);
        lemma_divides_combination(d, a as int, b as int, 1, -((a / b) as int));
        assert(1 * (a as int) + (-((a / b) as int)) * (b as int) == r as int) by (nonlinear_arith)
            requires
                a as int == (b as int) * ((a as int) / (b as int)) + (a as int) % (b as int),
                r == a % b,
        ;
        lemma_gcd_greatest(b, r, d);
    }
}

/// Bezout's identity: the greatest common divisor is an integer combination of `a` and `b`.
pub proof fn lemma_gcd_bezout(a: nat, b: nat) -> (coeffs: (int, int))
    ensures
        (a as int) * coeffs.0 + (b as int) * coeffs.1 == spec_gcd(a, b) as int,
    decreases b,
{
    if b == 0 {
        (1, 0)
    } else {
        let r = a % b;
        let (x, y) = lemma_gcd_bezout(b, r);
        let q = (a / b) as int;
        lemma_fundamental_div_mod(a as int, b as int);
        assert((a as int) * y + (b as int) * (x - q * y) == (b as int) * x + (r as int) * y)
            by (nonlinear_arith)
            requires
                a as int == (b as int) * q + (r as int),
        ;
        (y, x - q * y)
    }
}

/// The least common multiple of two positive numbers is a positive common multiple of both,
/// and its product with their greatest common divisor is their product.
pub proof fn lemma_lcm_common_multiple(a: nat, b: nat)
    requires
        a > 0,
        b > 0,
    ensures
        spec_lcm(a, b) > 0,
        (spec_lcm(a, b) as int) % (a as int) == 0,
        (spec_lcm(a, b) as int) % (b as int) == 0,
        spec_lcm(a, b) * spec_gcd(a, b) == a * b,
{
    lemma_gcd_divides(a, b);
    let g = spec_gcd(a, b) as int;
    lemma_fundamental_div_mod(a as int, g);
    lemma_fundamental_div_mod(b as int, g);
    let a1 = (a as int) / g;
    let b1 = (b as int) / g;
    let l = spec_lcm(a, b) as int;
    assert(l == a1 * (b as int));
    assert(a1 > 0) by (nonlinear_arith)
        requires
            a as int == g * a1,
            a > 0,
            g > 0,
    ;
    assert(l > 0) by (nonlinear_arith)
        requires
            l == a1 * (b as int),
            a1 > 0,
            b > 0,
    ;
    assert(l == b1 * (a as int)) by (nonlinear_arith)
        requires
            l == a1 * (b as int),
            a as int == g * a1,
            b as int == g * b1,
    ;
    lemma_mod_multiples_basic(b1, a as int);
    lemma_mod_multiples_basic(a1, b as int);
    assert(l * g == (a as int) * (b as int)) by (nonlinear_arith)
        requires
            l == a1 * (b as int),
            a as int == g * a1,
    ;
}

/// Every common multiple of two positive numbers is a multiple of their least common multiple.
pub proof fn lemma_lcm_least(a: nat, b: nat, m: int)
    requires
        a > 0,
        b > 0,
        m % (a as int) == 0,
        m % (b as int) == 0,
    ensures
        m % (spec_lcm(a, b) as int) == 0,
{
    lemma_gcd_divides(a, b);
    lemma_lcm_common_multiple(a, b);
    let g = spec_gcd(a, b) as int;
    let (x, y) = lemma_gcd_bezout(a, b);
    lemma_fundamental_div_mod(a as int, g);
    lemma_fundamental_div_mod(b as int, g);
    lemma_fundamental_div_mod(m, a as int);
    lemma_fundamental_div_mod(m, b as int);
    let a1 = (a as int) / g;
    let b1 = (b as int) / g;
    let k = m / (a as int);
    let j = m / (b as int);
    let l = spec_lcm(a, b) as int;
    assert(a1 * x + b1 * y == 1) by (nonlinear_arith)
        requires
            (a as int) * x + (b as int) * y == g,
            a as int == g * a1,
            b as int == g * b1,
            g > 0,
    ;
    assert(m == m * a1 * x + m * b1 * y) by (nonlinear_arith)
        requires
            a1 * x + b1 * y == 1,
    ;
    assert(m * a1 * x == (j * x) * l) by (nonlinear_arith)
        requires
            m == (b as int) * j,
            l == a1 * (b as int),
    ;
    assert(m * b1 == a1 * k * (b as int)) by (nonlinear_arith)
        requires
            a as int == g * a1,
            b as int == g * b1,
            m == (a as int) * k,
    ;
    assert(m * b1 * y == (k * y) * l) by (nonlinear_arith)
        requires
            m * b1 == a1 * k * (b as int),
            l == a1 * (b as int),
    ;
    assert(m == (j * x + k * y) * l) by (nonlinear_arith)
        requires
            m == m * a1 * x + m * b1 * y,
            m * a1 * x == (j * x) * l,
            m * b1 * y == (k * y) * l,
    ;
    lemma_mod_multiples_basic(j * x + k * y, l);
}

/// Two positive numbers that divide each other are equal.
proof fn lemma_mutual_divisors_equal(x: int, y: int)
    requires
        x > 0,
        y > 0,
        x % y == 0,
        y % x == 0,
    ensures
        x == y,
{
    lemma_fundamental_div_mod(x, y);
    lemma_fundamental_div_mod(y, x);
    let kx = x / y;
    let ky = y / x;
    assert(kx >= 1) by (nonlinear_arith)
        requires
            x == y * kx,
            x > 0,
            y > 0,
    ;
    assert(ky >= 1) by (nonlinear_arith)
        requires
            y == x * ky,
            x > 0,
            y > 0,
    ;
    assert(x >= y) by (nonlinear_arith)
        requires
            x == y * kx,
            kx >= 1,
            y > 0,
    ;
    assert(y >= x) by (nonlinear_arith)
        requires
            y == x * ky,
            ky >= 1,
            x > 0,
    ;
}

/// The greatest common divisor and the least common multiple do not depend on argument order.
pub proof fn lemma_gcd_lcm_commutative(a: nat, b: nat)
    ensures
        spec_gcd(a, b) == spec_gcd(b, a),
        spec_lcm(a, b) == spec_lcm(b, a),
{
    if a > 0 || b > 0 {
        lemma_gcd_divides(a, b);
        lemma_gcd_divides(b, a);
        let g1 = spec_gcd(a, b) as int;
        let g2 = spec_gcd(b, a) as int;
        lemma_gcd_greatest(b, a, g1);
        lemma_gcd_greatest(a, b, g2);
        lemma_mutual_divisors_equal(g1, g2);
        if a > 0 && b > 0 {
            lemma_fundamental_div_mod(a as int, g1);
            lemma_fundamental_div_mod(b as int, g1);
            let a1 = (a as int) / g1;
            let b1 = (b as int) / g1;
            assert(a1 * (b as int) == b1 * (a as int)) by (nonlinear_arith)
                requires
                    a as int == g1 * a1,
                    b as int == g1 * b1,
            ;
        }
    } else {
        assert(a == 0 && b == 0);
    }
}

} // verus!
