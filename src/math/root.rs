//! Integer roots.
use vstd::prelude::*;
use vstd::arithmetic::power::{lemma_pow_increases, pow};

verus! {

/// `r` is the `k`-th root of `n` rounded toward zero: for `n >= 0`, `r^k <= n < (r+1)^k`;
/// for `n < 0`, the same of `-r` and `-n`.
pub open spec fn is_floor_root(n: int, k: nat, r: int) -> bool {
    if n >= 0 {
        r >= 0 && pow(r, k) <= n < pow(r + 1, k)
    } else {
        r <= 0 && pow(-r, k) <= -n < pow(-r + 1, k)
    }
}

/// `b^(e+1) = b * b^e`.
pub proof fn lemma_pow_succ(b: int, e: nat)
    ensures
        pow(b, e + 1) == b * pow(b, e),
{
    reveal(pow);
}

proof fn lemma_pow_ge_base(x: int, k: nat)
    requires
        x >= 1,
        k >= 1,
    ensures
        pow(x, k) >= x,
{
    lemma_pow_increases(x as nat, 1, k);
    vstd::arithmetic::power::lemma_pow1(x);
}

/// Whether `x^k <= n`.
fn pow_at_most(x: u64, k: usize, n: u64) -> (r: bool)
    requires
        k >= 1,
    ensures
        r == (pow(x as int, k as nat) <= n),
{
    if x <= 1 {
        proof {
            if x == 0 {
                vstd::arithmetic::power::lemma0_pow(k as nat);
            } else {
                vstd::arithmetic::power::lemma1_pow(k as nat);
            }
        }
        return x <= n;
    }
    if n == 0 {
        proof {
            lemma_pow_ge_base(x as int, k as nat);
        }
        return false;
    }
    let mut acc: u128 = 1;
    let mut i: usize = 0;
    proof {
        vstd::arithmetic::power::lemma_pow0(x as int);
    }
    while i < k
        invariant
            x >= 2,
            i <= k,
            acc == pow(x as int, i as nat),
            acc <= n,
        decreases k - i,
    {
        proof {
            lemma_pow_succ(x as int, i as nat);
            assert(acc * x <= (n as int) * (u64::MAX as int)) by (nonlinear_arith)
                requires acc <= n, x <= u64::MAX, acc >= 0;
            assert((n as int) * (u64::MAX as int) <= (u64::MAX as int) * (u64::MAX as int)) by (nonlinear_arith)
                requires n <= u64::MAX;
        }
        acc = acc * (x as u128);
        i += 1;
        if acc > n as u128 {
            proof {
                lemma_pow_increases(x as nat, i as nat, k as nat);
            }
            return false;
        }
    }
    true
}

/// The `k`-th root of `n`, rounded down.
pub fn root_floor_u64(n: u64, k: usize) -> (r: u64)
    requires
        k >= 1,
    ensures
        is_floor_root(n as int, k as nat, r as int),
{
    let mut lo: u64 = 0;
    let mut hi: u128 = n as u128 + 1;
    proof {
        vstd::arithmetic::power::lemma0_pow(k as nat);
        lemma_pow_ge_base(hi as int, k as nat);
    }
    while hi - lo as u128 > 1
        invariant
            k >= 1,
            lo < hi <= n as u128 + 1,
            pow(lo as int, k as nat) <= n,
            pow(hi as int, k as nat) > n,
        decreases hi - lo,
    {
        let mid: u64 = ((lo as u128 + hi) / 2) as u64;
        if pow_at_most(mid, k, n) {
            lo = mid;
        } else {
            hi = mid as u128;
        }
    }
    lo
}

/// `x` is an exact `k`-th root of `n`, of the same sign.
pub open spec fn is_exact_root(n: int, k: nat, x: int) -> bool {
    if n >= 0 {
        x >= 0 && pow(x, k) == n
    } else {
        x <= 0 && pow(-x, k) == -n
    }
}

/// For `0 <= a < b` and `k >= 1`, `a^k < b^k`.
pub proof fn lemma_pow_base_increases(a: nat, b: nat, k: nat)
    requires
        a < b,
        k >= 1,
    ensures
        pow(a as int, k) < pow(b as int, k),
    decreases k,
{
    if k == 1 {
        vstd::arithmetic::power::lemma_pow1(a as int);
        vstd::arithmetic::power::lemma_pow1(b as int);
    } else {
        lemma_pow_base_increases(a, b, (k - 1) as nat);
        lemma_pow_succ(a as int, (k - 1) as nat);
        lemma_pow_succ(b as int, (k - 1) as nat);
        vstd::arithmetic::power::lemma_pow_positive(b as int, (k - 1) as nat);
        let pa = pow(a as int, (k - 1) as nat);
        let pb = pow(b as int, (k - 1) as nat);
        vstd::arithmetic::power::lemma0_pow((k - 1) as nat);
        if a > 0 {
            vstd::arithmetic::power::lemma_pow_positive(a as int, (k - 1) as nat);
        } else {
            vstd::arithmetic::power::lemma0_pow((k - 1) as nat);
        }
        assert(a * pa < b * pb) by (nonlinear_arith)
            requires 0 <= a < b, 0 <= pa < pb;
    }
}

/// The exact roots are the floor roots that are exact.
proof fn lemma_exact_is_floor(n: int, k: nat, f: int, x: int)
    requires
        k >= 1,
        is_floor_root(n, k, f),
        is_exact_root(n, k, x),
    ensures
        x == f,
{
    let (xa, fa, m) = if n >= 0 { (x, f, n) } else { (-x, -f, -n) };
    if xa > fa {
        if xa > fa + 1 {
            lemma_pow_base_increases((fa + 1) as nat, xa as nat, k);
        }
    } else if xa < fa {
        lemma_pow_base_increases(xa as nat, fa as nat, k);
    }
}

/// Integer roots of a number.
pub trait IntRoot: Sized {
    spec fn value(&self) -> int;

    /// Whether the number is a `k`-th power of a number of its sign.
    fn is_perfect_pow(&self, k: usize) -> (r: bool)
        requires
            k >= 1,
            self.value() >= 0 || k % 2 == 1,
        ensures
            r == exists|x: int| is_exact_root(self.value(), k as nat, x);

    /// The exact `k`-th root, if there is one of the number's sign.
    fn root(&self, k: usize) -> (r: Option<Self>)
        requires
            k >= 1,
            self.value() >= 0 || k % 2 == 1,
        ensures
            r is Some <==> exists|x: int| is_exact_root(self.value(), k as nat, x),
            r matches Some(x) ==> is_exact_root(self.value(), k as nat, x.value());

    /// The exact square root of a non-negative number, if it is a square.
    fn sqrt(&self) -> (r: Option<Self>)
        requires
            self.value() >= 0,
        ensures
            r is Some <==> exists|x: int| is_exact_root(self.value(), 2, x),
            r matches Some(x) ==> is_exact_root(self.value(), 2, x.value());

    /// The exact cube root, if the number is a cube.
    fn cbrt(&self) -> (r: Option<Self>)
        ensures
            r is Some <==> exists|x: int| is_exact_root(self.value(), 3, x),
            r matches Some(x) ==> is_exact_root(self.value(), 3, x.value());

    /// The `k`-th root, rounded toward zero.
    fn root_floor(&self, k: usize) -> (r: Self)
        requires
            k >= 1,
            self.value() >= 0 || k % 2 == 1,
        ensures
            is_floor_root(self.value(), k as nat, r.value());

    /// The `k`-th root of a non-negative number, rounded up: the least `r >= 0` with
    /// `r^k >= n`.
    fn root_ceil(&self, k: usize) -> (r: Self)
        requires
            k >= 1,
            self.value() >= 0,
        ensures
            r.value() >= 0,
            pow(r.value(), k as nat) >= self.value(),
            r.value() == 0 || pow(r.value() - 1, k as nat) < self.value();
}

/// The magnitude of `n`.
fn magnitude(n: i64) -> (m: u64)
    ensures
        m as int == if n >= 0 { n as int } else { -(n as int) },
{
    if n >= 0 {
        n as u64
    } else if n == i64::MIN {
        9223372036854775808u64
    } else {
        (-n) as u64
    }
}

impl IntRoot for i64 {
    open spec fn value(&self) -> int {
        *self as int
    }

    fn root_floor(&self, k: usize) -> (r: i64) {
        let n = *self;
        let m = magnitude(n);
        let f = root_floor_u64(m, k);
        proof {
            if f >= 1 {
                lemma_pow_ge_base(f as int, k as nat);
            }
        }
        if n >= 0 {
            f as i64
        } else {
            (-(f as i128)) as i64
        }
    }

    fn root(&self, k: usize) -> (r: Option<i64>) {
        let n = *self;
        let m = magnitude(n);
        let x = self.root_floor(k);
        let f = magnitude(x);
        let exact = if m == 0 {
            f == 0
        } else {
            !pow_at_most(f, k, m - 1)
        };
        proof {
            if m == 0 && f != 0 {
                lemma_pow_ge_base(f as int, k as nat);
            }
            if m == 0 && f == 0 {
                vstd::arithmetic::power::lemma0_pow(k as nat);
            }
            if exact {
                assert(is_exact_root(n as int, k as nat, x as int));
            } else {
                assert forall|y: int| !is_exact_root(n as int, k as nat, y) by {
                    if is_exact_root(n as int, k as nat, y) {
                        lemma_exact_is_floor(n as int, k as nat, x as int, y);
                    }
                }
            }
        }
        if exact {
            Some(x)
        } else {
            None
        }
    }

    fn is_perfect_pow(&self, k: usize) -> (r: bool) {
        self.root(k).is_some()
    }

    fn sqrt(&self) -> (r: Option<i64>) {
        self.root(2)
    }

    fn cbrt(&self) -> (r: Option<i64>) {
        self.root(3)
    }

    fn root_ceil(&self, k: usize) -> (r: i64) {
        let n = *self;
        let x = self.root_floor(k);
        match self.root(k) {
            Some(e) => {
                proof {
                    lemma_exact_is_floor(n as int, k as nat, x as int, e as int);
                    if e >= 1 {
                        lemma_pow_base_increases((e - 1) as nat, e as nat, k as nat);
                    }
                }
                e
            },
            None => {
                proof {
                    if pow(x as int, k as nat) == n {
                        assert(is_exact_root(n as int, k as nat, x as int));
                    }
                    if x >= 1 {
                        lemma_pow_ge_base(x as int, k as nat);
                    }
                    assert((x + 1) - 1 == x);
                }
                x + 1
            },
        }
    }
}

} // verus!
