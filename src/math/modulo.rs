//! Arithmetic modulo the prime 1 000 000 007.
use vstd::prelude::*;
use vstd::arithmetic::div_mod::{
    lemma_fundamental_div_mod_converse, lemma_mul_mod_noop_general, lemma_sub_mod_noop,
    lemma_add_mod_noop,
};
use vstd::arithmetic::power::pow;
use crate::math::gcd::gcd_spec;
use crate::math::Invertible;
use crate::io::{i64_of, parse_i64};

verus! {

/// The modulus.
pub const MODULUS: i64 = 1_000_000_007;

pub open spec fn modulus() -> int {
    1_000_000_007
}

/// A residue modulo [`MODULUS`], held as its representative in `0..MODULUS`.
#[derive(Debug, Clone, Copy, PartialEq, Eq, Structural, Hash)]
pub struct Modulo {
    val: i64,
}

/// The residues modulo 1 000 000 007.
pub type Mod7 = Modulo;

/// `(-k - 1) mod m` is `m - 1 - (k mod m)`.
proof fn lemma_neg_mod(k: int, m: int)
    requires
        k >= 0,
        m > 0,
    ensures
        (-k - 1) % m == m - 1 - k % m,
{
    vstd::arithmetic::div_mod::lemma_fundamental_div_mod(k, m);
    let q = k / m;
    let r = k % m;
    assert(-k - 1 == (-q - 1) * m + (m - 1 - r)) by (nonlinear_arith)
        requires k == m * q + r;
    lemma_fundamental_div_mod_converse(-k - 1, m, -q - 1, m - 1 - r);
}

impl Modulo {
    #[verifier::type_invariant]
    spec fn inv(&self) -> bool {
        0 <= self.val < 1_000_000_007
    }

    /// The representative, in `0..MODULUS`.
    pub closed spec fn value(&self) -> int {
        self.val as int
    }

    /// The residue of `val`, which must already be in `0..MODULUS`.
    pub fn new_unchecked(val: i64) -> (r: Modulo)
        requires
            0 <= val < modulus(),
        ensures
            r.value() == val,
    {
        Modulo { val }
    }

    /// The residue of any `val`.
    pub fn new(val: i64) -> (r: Modulo)
        ensures
            r.value() == val as int % modulus(),
    {
        if val >= 0 {
            Modulo { val: val % MODULUS }
        } else {
            let k = -(val + 1);
            proof {
                lemma_neg_mod(k as int, modulus());
            }
            Modulo { val: MODULUS - 1 - k % MODULUS }
        }
    }

    /// The representative, in `0..MODULUS`.
    pub fn val(&self) -> (r: i64)
        ensures
            r == self.value(),
            0 <= r < modulus(),
    {
        proof {
            use_type_invariant(self);
        }
        self.val
    }

    pub fn add(self, rhs: Modulo) -> (r: Modulo)
        ensures
            r.value() == (self.value() + rhs.value()) % modulus(),
    {
        proof {
            use_type_invariant(&self);
            use_type_invariant(&rhs);
        }
        Modulo::new(self.val + rhs.val)
    }

    pub fn add_assign(&mut self, rhs: Modulo)
        ensures
            final(self).value() == (old(self).value() + rhs.value()) % modulus(),
    {
        *self = self.add(rhs);
    }

    pub fn sub(self, rhs: Modulo) -> (r: Modulo)
        ensures
            r.value() == (self.value() - rhs.value()) % modulus(),
    {
        proof {
            use_type_invariant(&self);
            use_type_invariant(&rhs);
        }
        Modulo::new(self.val - rhs.val)
    }

    pub fn sub_assign(&mut self, rhs: Modulo)
        ensures
            final(self).value() == (old(self).value() - rhs.value()) % modulus(),
    {
        *self = self.sub(rhs);
    }

    pub fn mul(self, rhs: Modulo) -> (r: Modulo)
        ensures
            r.value() == (self.value() * rhs.value()) % modulus(),
    {
        proof {
            use_type_invariant(&self);
            use_type_invariant(&rhs);
            assert(self.val * rhs.val < 1_000_000_007 * 1_000_000_007) by (nonlinear_arith)
                requires 0 <= self.val < 1_000_000_007, 0 <= rhs.val < 1_000_000_007;
            assert(0 <= self.val * rhs.val) by (nonlinear_arith)
                requires 0 <= self.val, 0 <= rhs.val;
        }
        Modulo::new(self.val * rhs.val)
    }

    pub fn mul_assign(&mut self, rhs: Modulo)
        ensures
            final(self).value() == (old(self).value() * rhs.value()) % modulus(),
    {
        *self = self.mul(rhs);
    }

    pub fn neg(self) -> (r: Modulo)
        ensures
            r.value() == (-self.value()) % modulus(),
    {
        proof {
            use_type_invariant(&self);
            vstd::arithmetic::div_mod::lemma_mod_add_multiples_vanish(-self.val as int, modulus());
        }
        Modulo::new(MODULUS - self.val)
    }

    /// The residue raised to the power `exp`, by repeated squaring.
    pub fn pow(self, exp: i64) -> (r: Modulo)
        requires
            exp >= 0,
        ensures
            r.value() == pow(self.value(), exp as nat) % modulus(),
    {
        let ghost m = modulus();
        let mut result = Modulo::new(1);
        let mut base = self;
        let mut e = exp;
        proof {
            vstd::arithmetic::power::lemma_pow0(base.value());
            vstd::arithmetic::power::lemma_pow0(self.value());
            use_type_invariant(&self);
            vstd::arithmetic::div_mod::lemma_small_mod(self.val as nat, m as nat);
            vstd::arithmetic::div_mod::lemma_small_mod(1, m as nat);
            assert(1 * pow(self.value(), exp as nat) == pow(self.value(), exp as nat));
        }
        while e > 0
            invariant
                e >= 0,
                m == modulus(),
                (result.value() * pow(base.value(), e as nat)) % m == pow(self.value(), exp as nat) % m,
            decreases e,
        {
            proof {
                use_type_invariant(&result);
            }
            let ghost b = base.value();
            let ghost rv = result.value();
            let ghost ev = e as nat;
            let half = e / 2;
            let odd = e % 2 == 1;
            proof {
                // b^e = (b*b)^(e/2) * b^(e%2)
                vstd::arithmetic::power::lemma_pow_multiplies(b, 2, half as nat);
                vstd::arithmetic::power::lemma_pow_adds(b, (2 * half) as nat, (e % 2) as nat);
                assert(pow(b, 2) == b * b) by {
                    crate::math::root::lemma_pow_succ(b, 1);
                    vstd::arithmetic::power::lemma_pow1(b);
                }
                assert(ev == 2 * half + e % 2);
            }
            if odd {
                result = result.mul(base);
            }
            base = base.mul(base);
            e = half;
            proof {
                let bb = b * b;
                let t = pow(bb, half as nat);
                vstd::arithmetic::power::lemma_pow_mod_noop(bb, half as nat, m);
                let factor = if odd { b } else { 1 };
                if odd {
                    vstd::arithmetic::power::lemma_pow1(b);
                } else {
                    vstd::arithmetic::power::lemma_pow0(b);
                }
                assert(pow(b, ev) == t * factor);
                // the new result times the new power agrees with the old ones
                lemma_mul_mod_noop_general(result.value(), pow(base.value(), e as nat), m);
                lemma_mul_mod_noop_general(rv * factor, t, m);
                if !odd {
                    assert(rv * factor == rv);
                    assert(0 <= rv < m);
                    vstd::arithmetic::div_mod::lemma_small_mod(rv as nat, m as nat);
                }
                assert(result.value() == (rv * factor) % m);
                assert(pow(base.value(), e as nat) % m == t % m);
                assert((result.value() * pow(base.value(), e as nat)) % m == ((rv * factor) * t) % m);
                assert(rv * factor * t == rv * pow(b, ev)) by (nonlinear_arith)
                    requires pow(b, ev) == t * factor;
            }
        }
        proof {
            vstd::arithmetic::power::lemma_pow0(base.value());
            use_type_invariant(&result);
            vstd::arithmetic::div_mod::lemma_small_mod(result.val as nat, m as nat);
        }
        result
    }

    /// The inverse, when the residue and the modulus are coprime (every residue but 0).
    pub fn inverse(&self) -> (r: Option<Modulo>)
        ensures
            r is Some <==> gcd_spec(self.value() as nat, modulus() as nat) == 1,
            r matches Some(x) ==> (x.value() * self.value()) % modulus() == 1,
    {
        proof {
            use_type_invariant(self);
        }
        let v = self.val;
        let ghost m = modulus();
        let mut a: i64 = v;
        let mut b: i64 = MODULUS;
        let mut sa = Modulo::new(1);
        let mut sb = Modulo::new(0);
        proof {
            vstd::arithmetic::div_mod::lemma_small_mod(v as nat, m as nat);
            vstd::arithmetic::div_mod::lemma_small_mod(1, m as nat);
            vstd::arithmetic::div_mod::lemma_mod_self_0(m);
        }
        while b != 0
            invariant
                m == modulus(),
                0 <= v < m,
                0 <= a <= m,
                0 <= b <= m,
                gcd_spec(a as nat, b as nat) == gcd_spec(v as nat, m as nat),
                (sa.value() * v) % m == (a as int) % m,
                (sb.value() * v) % m == (b as int) % m,
            decreases b,
        {
            let q = a / b;
            let r = a % b;
            proof {
                use_type_invariant(&sb);
                assert(q <= a) by (nonlinear_arith)
                    requires q == a / b, b > 0, a >= 0;
                assert(q * sb.value() <= a * m) by (nonlinear_arith)
                    requires 0 <= q <= a, 0 <= sb.value() < m;
                assert(a * m <= m * m) by (nonlinear_arith)
                    requires 0 <= a <= m, m > 0;
                assert(0 <= q * sb.value()) by (nonlinear_arith)
                    requires 0 <= q, 0 <= sb.value();
                use_type_invariant(&sa);
                assert(q <= a) by (nonlinear_arith)
                    requires q == a / b, b > 0, a >= 0;
            }
            let ghost sav = sa.value();
            let ghost sbv = sb.value();
            let next = Modulo::new(sa.val - q * sb.val);
            proof {
                vstd::arithmetic::div_mod::lemma_fundamental_div_mod(a as int, b as int);
                assert(r == a - q * b);
                lemma_mul_mod_noop_general(sav - q * sbv, v as int, m);
                assert((sav - q * sbv) * v == sav * v - q * (sbv * v)) by (nonlinear_arith);
                lemma_sub_mod_noop(sav * v, q * (sbv * v), m);
                lemma_mul_mod_noop_general(q as int, sbv * v, m);
                lemma_mul_mod_noop_general(q as int, b as int, m);
                lemma_sub_mod_noop(a as int, q * b, m);
                assert((next.value() * v) % m == (r as int) % m);
            }
            a = b;
            b = r;
            sa = sb;
            sb = next;
        }
        if a == 1 {
            proof {
                vstd::arithmetic::div_mod::lemma_small_mod(1, m as nat);
                assert((sa.value() * v) == (sa.value() * self.value()));
            }
            Some(sa)
        } else {
            None
        }
    }

    /// The quotient `self / rhs`: the residue that gives `self` when multiplied by `rhs`.
    pub fn div(self, rhs: Modulo) -> (r: Modulo)
        requires
            gcd_spec(rhs.value() as nat, modulus() as nat) == 1,
        ensures
            (r.value() * rhs.value()) % modulus() == self.value(),
    {
        let inv = rhs.inverse().unwrap();
        let r = self.mul(inv);
        proof {
            let m = modulus();
            use_type_invariant(&self);
            lemma_mul_mod_noop_general(self.value() * inv.value(), rhs.value(), m);
            assert(self.value() * inv.value() * rhs.value() == self.value() * (inv.value() * rhs.value())) by (nonlinear_arith);
            lemma_mul_mod_noop_general(self.value(), inv.value() * rhs.value(), m);
            vstd::arithmetic::div_mod::lemma_small_mod(self.val as nat, m as nat);
        }
        r
    }

    pub fn div_assign(&mut self, rhs: Modulo)
        requires
            gcd_spec(rhs.value() as nat, modulus() as nat) == 1,
        ensures
            (final(self).value() * rhs.value()) % modulus() == old(self).value(),
    {
        *self = self.div(rhs);
    }
}

impl Modulo {
    /// The residue of the number that the bytes write (digits after an optional sign).
    pub fn parse(b: &[u8]) -> (r: Option<Modulo>)
        ensures
            match i64_of(b@) {
                Some(v) => r matches Some(m) && m.value() == v as int % modulus(),
                None => r is None,
            },
    {
        match parse_i64(b) {
            Some(v) => Some(Modulo::new(v)),
            None => None,
        }
    }
}

impl core::str::FromStr for Modulo {
    type Err = ();

    fn from_str(s: &str) -> Result<Modulo, ()> {
        match Modulo::parse(s.as_bytes()) {
            Some(m) => Ok(m),
            None => Err(()),
        }
    }
}

impl Invertible for Modulo {
    type Output = Modulo;

    open spec fn is_inverse(&self, r: Modulo) -> bool {
        (r.value() * self.value()) % modulus() == 1
    }

    open spec fn invertible(&self) -> bool {
        gcd_spec(self.value() as nat, modulus() as nat) == 1
    }

    fn inverse(&self) -> (r: Option<Modulo>) {
        Modulo::inverse(self)
    }
}

} // verus!
