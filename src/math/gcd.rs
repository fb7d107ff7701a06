//! Greatest common divisor and least common multiple.
use vstd::prelude::*;

verus! {

/// The greatest common divisor, by Euclid's rule: `gcd(a, 0) = a`.
pub open spec fn gcd_spec(a: nat, b: nat) -> nat
    decreases b,
{
    if b == 0 {
        a
    } else {
        gcd_spec(b, a % b)
    }
}

/// The greatest common divisor of `a` and `b` (`gcd(0, b) = b`).
pub fn gcd(a: u64, b: u64) -> (r: u64)
    ensures
        r == gcd_spec(a as nat, b as nat),
{
    let mut x = a;
    let mut y = b;
    while y != 0
        invariant
            gcd_spec(x as nat, y as nat) == gcd_spec(a as nat, b as nat),
        decreases y,
    {
        let t = x % y;
        x = y;
        y = t;
    }
    x
}

/// The greatest common divisor divides both numbers, and is 0 only when both are.
pub proof fn lemma_gcd_divides(a: nat, b: nat)
    ensures
        gcd_spec(a, b) > 0 ==> a % gcd_spec(a, b) == 0 && b % gcd_spec(a, b) == 0,
        gcd_spec(a, b) == 0 <==> a == 0 && b == 0,
    decreases b,
{
    if b > 0 {
        lemma_gcd_divides(b, a % b);
        let g = gcd_spec(b, a % b);
        if g > 0 {
            assert(a % g == 0) by {
                vstd::arithmetic::div_mod::lemma_fundamental_div_mod(a as int, b as int);
                let q = a / b;
                let r = a % b;
                assert(b % g == 0 && r % g == 0);
                vstd::arithmetic::div_mod::lemma_fundamental_div_mod(b as int, g as int);
                vstd::arithmetic::div_mod::lemma_fundamental_div_mod(r as int, g as int);
                let bb = b / g;
                let rr = r / g;
                assert(a == g * (q * bb + rr)) by (nonlinear_arith)
                    requires a == b * q + r, b == g * bb, r == g * rr;
                vstd::arithmetic::div_mod::lemma_mod_multiples_basic((q * bb + rr) as int, g as int);
                assert((q * bb + rr) * g == g * (q * bb + rr)) by (nonlinear_arith);
            }
        }
    }
}

/// The least common multiple of `a` and `b`, computed as `a / gcd(a, b) * b`.
pub fn lcm(a: u64, b: u64) -> (r: u64)
    requires
        a > 0 || b > 0,
        (a as nat / gcd_spec(a as nat, b as nat)) * b <= u64::MAX,
    ensures
        r == (a as nat / gcd_spec(a as nat, b as nat)) * b,
{
    proof {
        lemma_gcd_divides(a as nat, b as nat);
    }
    let g = gcd(a, b);
    a / g * b
}

pub open spec fn max1(x: int) -> int {
    if x >= 1 {
        x
    } else {
        1
    }
}

pub open spec fn abs(x: int) -> int {
    if x >= 0 {
        x
    } else {
        -x
    }
}

/// The extended Euclidean algorithm: the greatest common divisor `d` of `a` and `b`, with
/// coefficients `x` and `y` such that `a * x + b * y == d`.
pub fn gcd_extended(a: i32, b: i32) -> (r: (i32, i64, i64))
    requires
        a >= 0,
        b >= 0,
    ensures
        r.0 as nat == gcd_spec(a as nat, b as nat),
        a * r.1 + b * r.2 == r.0,
        abs(r.1 as int) <= max1(b as int),
        abs(r.2 as int) <= max1(a as int),
        b == 0 ==> r.1 == 1 && r.2 == 0,
    decreases b,
{
    if b == 0 {
        return (a, 1, 0);
    }
    let q = a / b;
    let rem = a % b;
    let (d, x1, y1) = gcd_extended(b, rem);
    proof {
        vstd::arithmetic::div_mod::lemma_fundamental_div_mod(a as int, b as int);
        assert(a == b * q + rem);
        assert(0 <= q <= a) by (nonlinear_arith)
            requires q == a / b, b > 0, a >= 0;
        assert(abs(q * y1 as int) <= q * max1(b as int)) by (nonlinear_arith)
            requires abs(y1 as int) <= max1(b as int), q >= 0;
        assert(q * max1(b as int) <= a) by (nonlinear_arith)
            requires b >= 1, max1(b as int) == b, a == b * q + rem, rem >= 0, q >= 0;
        if rem == 0 {
            assert(y1 == 0);
        }
        assert(abs(x1 - q * y1) <= max1(a as int)) by (nonlinear_arith)
            requires
                abs(x1 as int) <= max1(rem as int),
                abs(q * y1 as int) <= q * max1(b as int),
                q * max1(b as int) <= a,
                a == b * q + rem,
                rem == 0 ==> y1 == 0 && x1 == 1,
                rem >= 0,
                b >= 1,
                q >= 0;
        assert(a * y1 + b * (x1 - q * y1) == b * x1 + rem * y1) by (nonlinear_arith)
            requires a == b * q + rem;
        assert(q * y1 <= 0x7fff_ffff * 0x8000_0000) by (nonlinear_arith)
            requires abs(q * y1 as int) <= a, a <= 0x7fff_ffff;
    }
    (d, y1, x1 - (q as i64) * y1)
}

} // verus!
