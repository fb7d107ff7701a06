//! Integer logarithms.
use vstd::prelude::*;
use vstd::arithmetic::power::pow;
use crate::math::root::lemma_pow_succ;

verus! {

/// Integer logarithms of a number.
pub trait IntLog: Sized {
    spec fn value(&self) -> int;

    /// The logarithm rounded up: the least `e` with `base^e >= n`, for `n > 0`.
    fn log(self, base: Self) -> (r: Self)
        requires
            self.value() > 0,
            base.value() > 1,
        ensures
            r.value() >= 0,
            pow(base.value(), r.value() as nat) >= self.value(),
            r.value() == 0 || pow(base.value(), (r.value() - 1) as nat) < self.value();

    /// How many divisions by `base` bring `n >= 0` to zero: the least `c` with `base^c > n`.
    fn div_till_zero(self, base: Self) -> (r: Self)
        requires
            self.value() >= 0,
            base.value() > 1,
        ensures
            r.value() >= 0,
            pow(base.value(), r.value() as nat) > self.value(),
            r.value() == 0 || pow(base.value(), (r.value() - 1) as nat) <= self.value();
}

impl IntLog for i64 {
    open spec fn value(&self) -> int {
        *self as int
    }

    fn log(self, base: i64) -> (r: i64) {
        let mut p: i128 = 1;
        let mut e: i64 = 0;
        proof {
            vstd::arithmetic::power::lemma_pow0(base as int);
        }
        while p < self as i128
            invariant
                self > 0,
                base > 1,
                0 <= e,
                e + 1 <= p,
                p == pow(base as int, e as nat),
                p >= 1,
                e == 0 || pow(base as int, (e - 1) as nat) < self,
            decreases self - e,
        {
            proof {
                lemma_pow_succ(base as int, e as nat);
                assert(p * base < (i64::MAX as int) * (i64::MAX as int)) by (nonlinear_arith)
                    requires p < self, self <= i64::MAX, base <= i64::MAX, base > 1, p >= 1;
                assert(p * base >= p * 2) by (nonlinear_arith)
                    requires base >= 2, p >= 1;
            }
            p = p * base as i128;
            e += 1;
        }
        e
    }

    fn div_till_zero(self, base: i64) -> (r: i64) {
        let mut p: i128 = 1;
        let mut c: i64 = 0;
        proof {
            vstd::arithmetic::power::lemma_pow0(base as int);
        }
        while p <= self as i128
            invariant
                self >= 0,
                base > 1,
                0 <= c,
                c + 1 <= p,
                p == pow(base as int, c as nat),
                p >= 1,
                c == 0 || pow(base as int, (c - 1) as nat) <= self,
            decreases self + 1 - c,
        {
            proof {
                lemma_pow_succ(base as int, c as nat);
                assert(p * base <= (i64::MAX as int) * (i64::MAX as int)) by (nonlinear_arith)
                    requires p <= self, self <= i64::MAX, base <= i64::MAX, base > 1, p >= 1;
                assert(p * base >= p * 2) by (nonlinear_arith)
                    requires base >= 2, p >= 1;
            }
            p = p * base as i128;
            c += 1;
        }
        c
    }
}

} // verus!
