//! Primality, sieves, prime factorization and divisors.
use vstd::prelude::*;
use vstd::arithmetic::div_mod::{lemma_fundamental_div_mod, lemma_mod_multiples_basic};
use vstd::arithmetic::power::pow;

verus! {

/// `n` is prime: at least 2, and no number between 2 and `n` divides it.
pub open spec fn is_prime_spec(n: nat) -> bool {
    n >= 2 && forall|d: nat| 2 <= d < n ==> #[trigger] (n % d) != 0
}

/// If no number from 2 below `i` divides `n`, and `i * i > n >= 2`, then `n` is prime.
pub proof fn lemma_prime_by_trial(n: nat, i: nat)
    requires
        n >= 2,
        i * i > n,
        forall|d: nat| 2 <= d < i ==> #[trigger] (n % d) != 0,
    ensures
        is_prime_spec(n),
{
    assert forall|d: nat| 2 <= d < n implies #[trigger] (n % d) != 0 by {
        if n % d == 0 && d >= i {
            lemma_fundamental_div_mod(n as int, d as int);
            let e = n / d;
            assert(n == d * e);
            if e >= i {
                assert(d * e >= i * i) by (nonlinear_arith)
                    requires d >= i, e >= i;
            } else {
                assert(e >= 2) by (nonlinear_arith)
                    requires n == d * e, d < n, e < i;
                lemma_mod_multiples_basic(d as int, e as int);
                assert(d * e == e * d) by (nonlinear_arith);
            }
        }
    }
}

/// If `d` divides `n` and `2 <= d < n` then `n` is not prime.
pub proof fn lemma_not_prime(n: nat, d: nat)
    requires
        2 <= d < n,
        n % d == 0,
    ensures
        !is_prime_spec(n),
{
}

/// Whether `n` is prime, by trial division.
pub fn is_prime(n: u64) -> (r: bool)
    ensures
        r == is_prime_spec(n as nat),
{
    if n <= 1 {
        return false;
    }
    let mut i: u64 = 2;
    while i <= n / i
        invariant
            2 <= i,
            n >= 2,
            forall|d: nat| 2 <= d < i ==> #[trigger] ((n as nat) % d) != 0,
            i <= n,
        decreases n - i,
    {
        if n % i == 0 {
            proof {
                assert(i * i <= n) by (nonlinear_arith)
                    requires i <= n / i, i >= 2;
                assert(i < n) by (nonlinear_arith)
                    requires i * i <= n, i >= 2;
                lemma_not_prime(n as nat, i as nat);
            }
            return false;
        }
        proof {
            assert(i + 1 <= n) by (nonlinear_arith)
                requires i <= n / i, i >= 2, n >= 2;
        }
        i += 1;
    }
    proof {
        assert(i * i > n) by (nonlinear_arith)
            requires i > n / i, i >= 2;
        lemma_prime_by_trial(n as nat, i as nat);
    }
    true
}

/// Primality of a number.
pub trait IsPrime {
    spec fn value(&self) -> nat;

    fn is_prime(self) -> (r: bool)
        ensures
            r == is_prime_spec(self.value());
}

impl IsPrime for u64 {
    open spec fn value(&self) -> nat {
        *self as nat
    }

    fn is_prime(self) -> (r: bool) {
        is_prime(self)
    }
}

/// The flags of a sieve: entry `x`, for `x` from 0 to `max(n, 2)`, says whether `x` is prime.
pub fn sieve(n: usize) -> (r: Vec<bool>)
    requires
        n < usize::MAX / 2,
    ensures
        r@.len() == if n < 2 { 3 } else { n + 1 },
        forall|x: int| 0 <= x < r@.len() ==> r@[x] == is_prime_spec(x as nat),
{
    let m: usize = if n < 2 { 2 } else { n };
    let mut nums: Vec<bool> = Vec::new();
    let mut x: usize = 0;
    while x <= m
        invariant
            x <= m + 1,
            m < usize::MAX / 2,
            nums@.len() == x,
            forall|y: int| 0 <= y < x ==> nums@[y] == (y >= 2),
        decreases m + 1 - x,
    {
        nums.push(x >= 2);
        x += 1;
    }
    let mut i: usize = 2;
    while i <= m
        invariant
            2 <= i <= m + 1,
            m < usize::MAX / 2,
            nums@.len() == m + 1,
            forall|y: int|
                0 <= y <= m ==> #[trigger] nums@[y] == (y >= 2 && forall|d: nat|
                    2 <= d < i && d < y ==> #[trigger] ((y as nat) % d) != 0),
        decreases m + 1 - i,
    {
        let mut j: usize = 2 * i;
        let ghost mut k: nat = 2;
        while j <= m
            invariant
                2 <= i <= m,
                m < usize::MAX / 2,
                nums@.len() == m + 1,
                j == k * i,
                k >= 2,
                forall|y: int|
                    0 <= y <= m ==> #[trigger] nums@[y] == (y >= 2 && (forall|d: nat|
                        2 <= d < i && d < y ==> #[trigger] ((y as nat) % d) != 0) && !(
                    (y as nat) % (i as nat) == 0 && 2 * i <= y < j)),
            decreases m + i - j,
        {
            proof {
                lemma_mod_multiples_basic(k as int, i as int);
                assert(2 * i <= k * i) by (nonlinear_arith)
                    requires k >= 2;
            }
            let ghost before = nums@;
            nums.set(j, false);
            proof {
                assert((k + 1) * i == k * i + i) by (nonlinear_arith);
                assert forall|y: int| j < y < j + i implies #[trigger] ((y as nat) % (i as nat)) != 0 by {
                    if (y as nat) % (i as nat) == 0 {
                        lemma_fundamental_div_mod(y, i as int);
                        let q = y / (i as int);
                        assert(false) by (nonlinear_arith)
                            requires y == i * q, k * i < y, y < k * i + i, i >= 2;
                    }
                }
                k = k + 1;
            }
            j = j + i;
        }
        proof {
            assert forall|y: int| 0 <= y <= m implies #[trigger] nums@[y] == (y >= 2 && forall|d: nat|
                2 <= d < i + 1 && d < y ==> #[trigger] ((y as nat) % d) != 0) by {
                if y >= 2 && (y as nat) % (i as nat) == 0 && i < y {
                    lemma_fundamental_div_mod(y, i as int);
                    let q = y / (i as int);
                    assert(q >= 2) by (nonlinear_arith)
                        requires y == i * q, i < y, i >= 2;
                    assert(2 * i <= y) by (nonlinear_arith)
                        requires y == i * q, q >= 2, i >= 2;
                }
            }
        }
        i += 1;
    }
    proof {
        assert forall|y: int| 0 <= y < nums@.len() implies nums@[y] == is_prime_spec(y as nat) by {
            assert(nums@[y] == (y >= 2 && forall|d: nat|
                2 <= d < m + 1 && d < y ==> #[trigger] ((y as nat) % d) != 0));
        }
    }
    nums
}

/// The primes up to `max(n, 2)`, one after the other, from a sieve.
#[derive(Debug)]
pub struct SieveIter {
    nums: Vec<bool>,
    current: usize,
}

impl SieveIter {
    /// The last number considered, `max(n, 2)`.
    pub closed spec fn limit(&self) -> nat {
        (self.nums@.len() - 1) as nat
    }

    /// The primes below this number have been listed.
    pub closed spec fn position(&self) -> nat {
        self.current as nat
    }

    pub closed spec fn wf(&self) -> bool {
        &&& 3 <= self.nums@.len() <= usize::MAX / 2
        &&& forall|x: int| 0 <= x < self.nums@.len() ==> self.nums@[x] == is_prime_spec(x as nat)
    }

    /// Starts listing the primes up to `max(n, 2)`.
    pub fn new(n: usize) -> (r: SieveIter)
        requires
            n < usize::MAX / 2,
        ensures
            r.wf(),
            r.limit() == if n < 2 { 2 } else { n },
            r.position() == 0,
    {
        SieveIter { nums: sieve(n), current: 0 }
    }

    /// The least prime from the current position up to the limit, after which the
    /// position moves; `None` when there is none.
    pub fn next(&mut self) -> (r: Option<usize>)
        requires
            old(self).wf(),
        ensures
            final(self).wf(),
            final(self).limit() == old(self).limit(),
            r matches Some(p) ==> {
                &&& is_prime_spec(p as nat)
                &&& old(self).position() <= p <= old(self).limit()
                &&& forall|x: nat| old(self).position() <= x < p ==> !is_prime_spec(x)
                &&& final(self).position() == p + 1
            },
            r is None ==> forall|x: nat|
                old(self).position() <= x <= old(self).limit() ==> !is_prime_spec(x),
    {
        let start = self.current;
        let mut i = self.current;
        while i < self.nums.len()
            invariant
                self.wf(),
                self.current == start,
                start == old(self).current,
                self.nums@ == old(self).nums@,
                start <= i,
                forall|x: nat| start <= x < i ==> !is_prime_spec(x),
            decreases self.nums.len() - i,
        {
            if self.nums[i] {
                self.current = i + 1;
                return Some(i);
            }
            i += 1;
        }
        proof {
            assert forall|x: nat| old(self).position() <= x <= old(self).limit() implies !is_prime_spec(x) by {
                assert(x < i);
            }
        }
        None
    }
}

/// The primes up to `max(n, 2)`, in increasing order.
pub fn primes(n: usize) -> (r: Vec<usize>)
    requires
        n < usize::MAX / 2,
    ensures
        forall|j: int, k: int| 0 <= j < k < r@.len() ==> r@[j] < r@[k],
        forall|x: usize| #[trigger] r@.contains(x) <==> x <= if n < 2 { 2 } else { n } && is_prime_spec(x as nat),
{
    let flags = sieve(n);
    let mut r: Vec<usize> = Vec::new();
    let mut x: usize = 0;
    while x < flags.len()
        invariant
            x <= flags@.len(),
            flags@.len() == if n < 2 { 3 } else { n + 1 },
            forall|y: int| 0 <= y < flags@.len() ==> flags@[y] == is_prime_spec(y as nat),
            forall|j: int, k: int| 0 <= j < k < r@.len() ==> r@[j] < r@[k],
            forall|j: int| 0 <= j < r@.len() ==> r@[j] < x,
            forall|y: usize| #[trigger] r@.contains(y) <==> y < x && is_prime_spec(y as nat),
        decreases flags.len() - x,
    {
        let ghost before = r@;
        if flags[x] {
            r.push(x);
            proof {
                assert forall|y: usize| #[trigger] r@.contains(y) <==> y < x + 1 && is_prime_spec(y as nat) by {
                    if y == x {
                        assert(r@[r@.len() - 1] == y);
                    } else if r@.contains(y) {
                        let j = choose|j: int| 0 <= j < r@.len() && r@[j] == y;
                        assert(j < before.len());
                        assert(before[j] == y);
                        assert(before.contains(y));
                    } else if y < x && is_prime_spec(y as nat) {
                        assert(before.contains(y));
                        let j = choose|j: int| 0 <= j < before.len() && before[j] == y;
                        assert(r@[j] == y);
                    }
                }
            }
        } else {
            proof {
                assert forall|y: usize| #[trigger] r@.contains(y) <==> y < x + 1 && is_prime_spec(y as nat) by {
                    if y == x {
                        assert(!is_prime_spec(y as nat));
                    }
                }
            }
        }
        x += 1;
    }
    r
}

/// The numbers from 1 to `n` that are not prime, in increasing order.
pub fn non_primes(n: usize) -> (r: Vec<usize>)
    requires
        n < usize::MAX / 2,
    ensures
        forall|j: int, k: int| 0 <= j < k < r@.len() ==> r@[j] < r@[k],
        forall|x: usize| #[trigger] r@.contains(x) <==> 1 <= x <= n && !is_prime_spec(x as nat),
{
    let flags = sieve(n);
    let mut r: Vec<usize> = Vec::new();
    let mut x: usize = 1;
    while x <= n
        invariant
            1 <= x <= n + 1,
            n < usize::MAX / 2,
            flags@.len() == if n < 2 { 3 } else { n + 1 },
            forall|y: int| 0 <= y < flags@.len() ==> flags@[y] == is_prime_spec(y as nat),
            forall|j: int, k: int| 0 <= j < k < r@.len() ==> r@[j] < r@[k],
            forall|j: int| 0 <= j < r@.len() ==> r@[j] < x,
            forall|y: usize| #[trigger] r@.contains(y) <==> 1 <= y < x && !is_prime_spec(y as nat),
        decreases n + 1 - x,
    {
        let ghost before = r@;
        if !flags[x] {
            r.push(x);
            proof {
                assert forall|y: usize| #[trigger] r@.contains(y) <==> 1 <= y < x + 1 && !is_prime_spec(y as nat) by {
                    if y == x {
                        assert(r@[r@.len() - 1] == y);
                    } else if r@.contains(y) {
                        let j = choose|j: int| 0 <= j < r@.len() && r@[j] == y;
                        assert(j < before.len());
                        assert(before[j] == y);
                        assert(before.contains(y));
                    } else if 1 <= y < x && !is_prime_spec(y as nat) {
                        assert(before.contains(y));
                        let j = choose|j: int| 0 <= j < before.len() && before[j] == y;
                        assert(r@[j] == y);
                    }
                }
            }
        } else {
            proof {
                assert forall|y: usize| #[trigger] r@.contains(y) <==> 1 <= y < x + 1 && !is_prime_spec(y as nat) by {
                    if y == x {
                        assert(is_prime_spec(y as nat));
                    }
                }
            }
        }
        x += 1;
    }
    r
}

/// A prime factor of a number with its multiplicity.
#[derive(Debug, PartialEq, Eq, Structural, Clone, Copy)]
pub struct PrimeFactor(pub usize, pub usize);

impl PrimeFactor {
    pub fn new(factor: usize, count: usize) -> (r: PrimeFactor)
        ensures
            r == PrimeFactor(factor, count),
    {
        PrimeFactor(factor, count)
    }

    pub fn factor(&self) -> (r: usize)
        ensures
            r == self.0,
    {
        self.0
    }

    pub fn count(&self) -> (r: usize)
        ensures
            r == self.1,
    {
        self.1
    }
}

/// The product of `f^c` over the factors `PrimeFactor(f, c)` of `s`.
pub open spec fn factor_product(s: Seq<PrimeFactor>) -> int
    decreases s.len(),
{
    if s.len() == 0 {
        1
    } else {
        factor_product(s.drop_last()) * pow(s.last().0 as int, s.last().1 as nat)
    }
}

/// `d` divides `a`, and `a` divides `n`: then `d` divides `n`.
proof fn lemma_divides_trans(d: nat, a: nat, n: nat)
    requires
        d > 0,
        a > 0,
        a % d == 0,
        n % a == 0,
    ensures
        n % d == 0,
{
    lemma_fundamental_div_mod(a as int, d as int);
    lemma_fundamental_div_mod(n as int, a as int);
    let x = a / d;
    let y = n / a;
    assert(n == d * (x * y)) by (nonlinear_arith)
        requires a == d * x, n == a * y;
    lemma_mod_multiples_basic((x * y) as int, d as int);
    assert((x * y) * d == d * (x * y)) by (nonlinear_arith);
}

/// The prime factors of a number, smallest first, by trial division.
#[derive(Debug)]
pub struct PrimeFactorsIter {
    value: usize,
    next: usize,
}

impl PrimeFactorsIter {
    /// What is left to factor.
    pub closed spec fn value_spec(&self) -> nat {
        self.value as nat
    }

    /// No number from 2 below this one divides what is left.
    pub closed spec fn next_spec(&self) -> nat {
        self.next as nat
    }

    pub closed spec fn wf(&self) -> bool {
        self.next >= 2 && forall|d: nat| 2 <= d < self.next ==> #[trigger] ((self.value as nat) % d) != 0
    }

    /// Starts factoring `n`.
    pub fn new(n: usize) -> (r: PrimeFactorsIter)
        ensures
            r.wf(),
            r.value_spec() == n,
            r.next_spec() == 2,
    {
        PrimeFactorsIter { value: n, next: 2 }
    }

    /// The smallest prime factor of what is left, with its multiplicity, which is then
    /// divided out; `None` once what is left is 0 or 1.
    pub fn next(&mut self) -> (r: Option<PrimeFactor>)
        requires
            old(self).wf(),
        ensures
            final(self).wf(),
            r is None <==> old(self).value_spec() <= 1,
            r is None ==> final(self).value_spec() == old(self).value_spec(),
            r matches Some(pf) ==> {
                &&& is_prime_spec(pf.0 as nat)
                &&& pf.1 >= 1
                &&& forall|d: nat| 2 <= d < pf.0 ==> #[trigger] (old(self).value_spec() % d) != 0
                &&& pow(pf.0 as int, pf.1 as nat) * final(self).value_spec() == old(self).value_spec()
                &&& final(self).value_spec() % (pf.0 as nat) != 0
                &&& pf.0 >= old(self).next_spec()
                &&& (final(self).next_spec() > pf.0 || final(self).value_spec() == 1)
                &&& final(self).value_spec() < old(self).value_spec()
            },
    {
        if self.value <= 1 {
            return None;
        }
        let orig = self.value;
        let mut f = self.next;
        proof {
            if f > orig {
                assert((orig as nat) % (orig as nat) == 0) by {
                    lemma_mod_multiples_basic(1, orig as int);
                }
            }
        }
        while f <= self.value / f
            invariant
                self.value == orig,
                orig >= 2,
                2 <= f,
                old(self).next <= orig,
                old(self).value == orig,
                old(self).next <= f,
                forall|d: nat| 2 <= d < f ==> #[trigger] ((orig as nat) % d) != 0,
            decreases orig - f,
        {
            if self.value % f == 0 {
                proof {
                    assert forall|e: nat| 2 <= e < f implies #[trigger] ((f as nat) % e) != 0 by {
                        if (f as nat) % e == 0 {
                            lemma_divides_trans(e, f as nat, orig as nat);
                        }
                    }
                }
                let mut count: usize = 0;
                proof {
                    vstd::arithmetic::power::lemma_pow0(f as int);
                    assert(f < orig) by (nonlinear_arith)
                        requires f <= orig / f, f >= 2, orig >= 2;
                }
                while self.value % f == 0
                    invariant
                        2 <= f,
                        f < orig,
                        old(self).value == orig,
                        old(self).next <= f,
                        forall|d: nat| 2 <= d < f ==> #[trigger] ((orig as nat) % d) != 0,
                        self.value >= 1,
                        pow(f as int, count as nat) * self.value == orig,
                        count + self.value <= orig,
                        forall|d: nat| 2 <= d < f ==> #[trigger] ((self.value as nat) % d) != 0,
                    decreases self.value,
                {
                    let v = self.value;
                    proof {
                        lemma_fundamental_div_mod(v as int, f as int);
                        assert(v / f >= 1 && v / f < v) by (nonlinear_arith)
                            requires v == f * (v / f), f >= 2, v >= 1;
                        assert forall|d: nat| 2 <= d < f implies #[trigger] (((v / f) as nat) % d) != 0 by {
                            if ((v / f) as nat) % d == 0 {
                                lemma_mod_multiples_basic(f as int, (v / f) as int);
                                lemma_divides_trans(d, (v / f) as nat, v as nat);
                            }
                        }
                        assert(pow(f as int, (count + 1) as nat) == f * pow(f as int, count as nat)) by {
                            vstd::arithmetic::power::lemma_pow_adds(f as int, 1, count as nat);
                            vstd::arithmetic::power::lemma_pow1(f as int);
                        }
                        assert(pow(f as int, (count + 1) as nat) * (v / f) == orig) by (nonlinear_arith)
                            requires
                                pow(f as int, (count + 1) as nat) == f * pow(f as int, count as nat),
                                pow(f as int, count as nat) * v == orig,
                                v == f * (v / f);
                    }
                    self.value = v / f;
                    count += 1;
                }
                self.next = f + 1;
                proof {
                    assert(count >= 1) by {
                        if count == 0 {
                            vstd::arithmetic::power::lemma_pow0(f as int);
                        }
                    }
                    lemma_prime_by_divisors(f as nat);
                }
                return Some(PrimeFactor(f, count));
            }
            proof {
                assert(f < orig) by (nonlinear_arith)
                    requires f <= orig / f, f >= 2, orig >= 2;
            }
            f += 1;
        }
        proof {
            assert(f * f > orig) by (nonlinear_arith)
                requires f > orig / f, f >= 2;
            lemma_prime_by_trial(orig as nat, f as nat);
            vstd::arithmetic::power::lemma_pow1(orig as int);
        }
        self.value = 1;
        self.next = f;
        proof {
            assert forall|d: nat| 2 <= d < self.next implies #[trigger] ((self.value as nat) % d) != 0 by {
                vstd::arithmetic::div_mod::lemma_small_mod(1, d);
            }
            vstd::arithmetic::div_mod::lemma_small_mod(1, orig as nat);
            assert(pow(orig as int, 1) * 1 == orig);
            assert(forall|d: nat| 2 <= d < orig ==> #[trigger] ((orig as nat) % d) != 0);
            assert(orig >= old(self).next);
        }
        Some(PrimeFactor(orig, 1))
    }
}

/// `f` is at least 2 and nothing from 2 below it divides it: it is prime.
proof fn lemma_prime_by_divisors(f: nat)
    requires
        f >= 2,
        forall|e: nat| 2 <= e < f ==> #[trigger] (f % e) != 0,
    ensures
        is_prime_spec(f),
{
}

/// The prime factorization of `n`: its prime factors in increasing order, each with its
/// multiplicity.  It is empty for 0 and 1.
pub fn factorize(n: usize) -> (r: Vec<PrimeFactor>)
    ensures
        n >= 1 ==> factor_product(r@) == n,
        n <= 1 ==> r@.len() == 0,
        forall|j: int| 0 <= j < r@.len() ==> is_prime_spec(#[trigger] r@[j].0 as nat) && r@[j].1 >= 1,
        forall|j: int, k: int| 0 <= j < k < r@.len() ==> r@[j].0 < r@[k].0,
{
    let mut it = PrimeFactorsIter::new(n);
    let mut r: Vec<PrimeFactor> = Vec::new();
    loop
        invariant
            it.wf(),
            n >= 1 ==> factor_product(r@) * it.value_spec() == n,
            n <= 1 ==> r@.len() == 0 && it.value_spec() == n,
            forall|j: int| 0 <= j < r@.len() ==> is_prime_spec(#[trigger] r@[j].0 as nat) && r@[j].1 >= 1,
            forall|j: int, k: int| 0 <= j < k < r@.len() ==> r@[j].0 < r@[k].0,
            r@.len() > 0 ==> (r@.last().0 < it.next_spec() || it.value_spec() == 1),
            n >= 1 ==> it.value_spec() >= 1,
        ensures
            n >= 1 ==> factor_product(r@) == n,
            n <= 1 ==> r@.len() == 0,
            forall|j: int| 0 <= j < r@.len() ==> is_prime_spec(#[trigger] r@[j].0 as nat) && r@[j].1 >= 1,
            forall|j: int, k: int| 0 <= j < k < r@.len() ==> r@[j].0 < r@[k].0,
        decreases it.value_spec(),
    {
        let ghost before = r@;
        let ghost v = it.value_spec();
        match it.next() {
            None => {
                proof {
                    if n >= 1 {
                        assert(it.value_spec() == 1);
                        assert(factor_product(r@) * 1 == n);
                    }
                }
                break;
            },
            Some(pf) => {
                r.push(pf);
                proof {
                    assert(r@.drop_last() == before);
                    let p = pow(pf.0 as int, pf.1 as nat);
                    assert(factor_product(r@) == factor_product(before) * p);
                    assert(factor_product(r@) * it.value_spec() == n) by (nonlinear_arith)
                        requires
                            factor_product(r@) == factor_product(before) * p,
                            p * it.value_spec() == v,
                            factor_product(before) * v == n;
                    if it.value_spec() == 0 {
                        assert(p * 0 == 0) by (nonlinear_arith);
                    }
                }
            },
        }
    }
    r
}

/// `x * y == n` for a divisor `x` of `n > 0`, with `y = n / x`.
proof fn lemma_cofactor(n: nat, x: nat)
    requires
        x > 0,
        n % x == 0,
    ensures
        x * (n / x) == n,
        (n / x) * x == n,
{
    lemma_fundamental_div_mod(n as int, x as int);
    assert(x * (n / x) == (n / x) * x) by (nonlinear_arith);
}

/// A divisor of `n` whose cofactor is `c` is `n / c`.
proof fn lemma_divisor_from_cofactor(n: nat, y: nat, c: nat)
    requires
        c > 0,
        y * c == n,
    ensures
        n / c == y,
        n % c == 0,
{
    vstd::arithmetic::div_mod::lemma_fundamental_div_mod_converse(n as int, c as int, y as int, 0);
}

/// The divisors of `n` in increasing order (for 0, the list holding 1).
pub fn factors(n: usize) -> (r: Vec<usize>)
    ensures
        n == 0 ==> r@ == seq![1usize],
        n > 0 ==> forall|j: int, k: int| 0 <= j < k < r@.len() ==> r@[j] < r@[k],
        n > 0 ==> forall|x: usize| #[trigger] r@.contains(x) <==> 1 <= x && (n as nat) % (x as nat) == 0,
{
    if n == 0 {
        let r = vec![1usize];
        proof {
            assert(r@ =~= seq![1usize]);
        }
        return r;
    }
    let mut small: Vec<usize> = Vec::new();
    let mut large: Vec<usize> = Vec::new();
    let mut d: usize = 1;
    proof {
        assert forall|y: usize| 1 <= y && #[trigger] ((n as nat) % (y as nat)) == 0 implies n / y >= 1 by {
            lemma_cofactor(n as nat, y as nat);
            if n / y == 0 {
                assert(y * 0 == 0) by (nonlinear_arith);
            }
        }
    }
    while d <= n / d
        invariant
            n > 0,
            1 <= d,
            d <= n + 1,
            (d - 1) * (d - 1) <= n,
            forall|x: usize| #[trigger] small@.contains(x) <==> 1 <= x < d && (n as nat) % (x as nat) == 0,
            forall|j: int, k: int| 0 <= j < k < small@.len() ==> small@[j] < small@[k],
            forall|j: int| 0 <= j < small@.len() ==> small@[j] < d,
            forall|y: usize| #[trigger] large@.contains(y) <==> 1 <= y && (n as nat) % (y as nat) == 0 && y * y > n && n / y < d,
            forall|j: int, k: int| 0 <= j < k < large@.len() ==> large@[j] > large@[k],
            forall|j: int| 0 <= j < large@.len() ==> large@[j] > (n as int) / (d as int),
        decreases n + 1 - d,
    {
        proof {
            assert(d * d <= n) by (nonlinear_arith)
                requires d <= n / d, d >= 1;
        }
        let ghost s0 = small@;
        let ghost l0 = large@;
        if n % d == 0 {
            let y = n / d;
            proof {
                lemma_cofactor(n as nat, d as nat);
                assert(y >= d) by (nonlinear_arith)
                    requires d * y == n, d * d <= n, d >= 1;
            }
            small.push(d);
            if y != d {
                large.push(y);
            }
            proof {
                assert forall|x: usize| #[trigger] small@.contains(x) <==> 1 <= x < d + 1 && (n as nat) % (x as nat) == 0 by {
                    if x == d {
                        assert(small@[small@.len() - 1] == d);
                    } else if small@.contains(x) {
                        let j = choose|j: int| 0 <= j < small@.len() && small@[j] == x;
                        assert(j < s0.len());
                        assert(s0.contains(x));
                    } else if 1 <= x < d && (n as nat) % (x as nat) == 0 {
                        assert(s0.contains(x));
                        let j = choose|j: int| 0 <= j < s0.len() && s0[j] == x;
                        assert(small@[j] == x);
                    }
                }
                assert forall|z: usize| #[trigger] large@.contains(z) <==> 1 <= z && (n as nat) % (z as nat) == 0 && z * z > n && n / z < d + 1 by {
                    if large@.contains(z) {
                        let j = choose|j: int| 0 <= j < large@.len() && large@[j] == z;
                        if j < l0.len() {
                            assert(l0.contains(z));
                        } else {
                            assert(z == y);
                            assert(y > d);
                            assert(y * y > n) by (nonlinear_arith)
                                requires y > d, d * y == n;
                            lemma_divisor_from_cofactor(n as nat, d as nat, y as nat);
                        }
                    }
                    if 1 <= z && (n as nat) % (z as nat) == 0 && z * z > n && n / z < d + 1 {
                        if n / z < d {
                            assert(l0.contains(z));
                            let j = choose|j: int| 0 <= j < l0.len() && l0[j] == z;
                            assert(large@[j] == z);
                        } else {
                            lemma_cofactor(n as nat, z as nat);
                            assert(z * d == n);
                            lemma_divisor_from_cofactor(n as nat, z as nat, d as nat);
                            assert(z == y);
                            assert(z != d) by (nonlinear_arith)
                                requires z * z > n, z * d == n;
                            assert(large@[large@.len() - 1] == z);
                        }
                    }
                }
                let q = (n as int) / ((d + 1) as int);
                assert(q < y) by {
                    lemma_fundamental_div_mod(n as int, (d + 1) as int);
                    assert(q * (d + 1) <= n);
                    assert(q < y) by (nonlinear_arith)
                        requires q * (d + 1) <= n, d * y == n, y >= 1, d >= 1;
                }
                assert forall|j: int| 0 <= j < large@.len() implies large@[j] > (n as int) / ((d + 1) as int) by {
                    vstd::arithmetic::div_mod::lemma_div_is_ordered_by_denominator(n as int, d as int, (d + 1) as int);
                }
            }
        } else {
            proof {
                assert forall|x: usize| #[trigger] small@.contains(x) <==> 1 <= x < d + 1 && (n as nat) % (x as nat) == 0 by {
                    if x == d {
                    }
                }
                assert forall|z: usize| #[trigger] large@.contains(z) <==> 1 <= z && (n as nat) % (z as nat) == 0 && z * z > n && n / z < d + 1 by {
                    if 1 <= z && (n as nat) % (z as nat) == 0 && n / z == d {
                        lemma_cofactor(n as nat, z as nat);
                        lemma_divisor_from_cofactor(n as nat, z as nat, d as nat);
                    }
                }
                assert forall|j: int| 0 <= j < large@.len() implies large@[j] > (n as int) / ((d + 1) as int) by {
                    vstd::arithmetic::div_mod::lemma_div_is_ordered_by_denominator(n as int, d as int, (d + 1) as int);
                }
            }
        }
        proof {
            assert(d * d <= n) by (nonlinear_arith)
                requires d <= n / d, d >= 1;
            assert(d <= n) by (nonlinear_arith)
                requires d * d <= n, d >= 1;
            assert(d < usize::MAX) by (nonlinear_arith)
                requires d * d <= n, d >= 1, n <= usize::MAX;
        }
        d += 1;
    }
    proof {
        assert(d * d > n) by (nonlinear_arith)
            requires d > n / d, d >= 1;
    }
    let mut r = small;
    let ghost sm = r@;
    let mut k = large.len();
    while k > 0
        invariant
            k <= large@.len(),
            r@.len() == sm.len() + (large@.len() - k),
            r@.subrange(0, sm.len() as int) == sm,
            forall|j: int| 0 <= j < large@.len() - k ==> #[trigger] r@[sm.len() + j] == large@[large@.len() - 1 - j],
        decreases k,
    {
        k -= 1;
        r.push(large[k]);
    }
    proof {
        assert forall|x: usize| #[trigger] r@.contains(x) <==> 1 <= x && (n as nat) % (x as nat) == 0 by {
            if r@.contains(x) {
                let j = choose|j: int| 0 <= j < r@.len() && r@[j] == x;
                if j < sm.len() {
                    assert(r@.subrange(0, sm.len() as int)[j] == r@[j]);
                    assert(sm[j] == x);
                    assert(sm.contains(x));
                } else {
                    let q = large@.len() - 1 - (j - sm.len());
                    assert(r@[sm.len() + (j - sm.len())] == large@[q]);
                    assert(large@[q] == x);
                    assert(large@.contains(x));
                }
            }
            if 1 <= x && (n as nat) % (x as nat) == 0 {
                if x < d {
                    assert(sm.contains(x));
                    let j = choose|j: int| 0 <= j < sm.len() && sm[j] == x;
                    assert(r@.subrange(0, sm.len() as int)[j] == r@[j]);
                    assert(r@[j] == x);
                } else {
                    lemma_cofactor(n as nat, x as nat);
                    assert(x * x > n) by (nonlinear_arith)
                        requires x >= d, d * d > n;
                    assert(n / x < d) by (nonlinear_arith)
                        requires x * (n / x) == n, x * x > n, x >= d, d * d > n, n / x >= 0;
                    assert(large@.contains(x));
                    let q = choose|q: int| 0 <= q < large@.len() && large@[q] == x;
                    let j = sm.len() + (large@.len() - 1 - q);
                    assert(r@[sm.len() + (large@.len() - 1 - q)] == large@[large@.len() - 1 - (large@.len() - 1 - q)]);
                    assert(r@[j] == x);
                }
            }
        }
        assert forall|j: int, k2: int| 0 <= j < k2 < r@.len() implies r@[j] < r@[k2] by {
            if j < sm.len() {
                assert(r@.subrange(0, sm.len() as int)[j] == r@[j]);
            }
            if k2 < sm.len() {
                assert(r@.subrange(0, sm.len() as int)[k2] == r@[k2]);
            } else if j >= sm.len() {
                let a = large@.len() - 1 - (j - sm.len());
                let b = large@.len() - 1 - (k2 - sm.len());
                assert(r@[sm.len() + (j - sm.len())] == large@[a]);
                assert(r@[sm.len() + (k2 - sm.len())] == large@[b]);
                assert(large@[b] > large@[a]);
            } else {
                let x = r@[j];
                let y = r@[k2];
                let b = large@.len() - 1 - (k2 - sm.len());
                assert(r@[sm.len() + (k2 - sm.len())] == large@[b]);
                assert(large@[b] == y);
                assert(large@.contains(y));
                assert(sm[j] == x);
                assert(sm.contains(x));
                assert(x < d);
                assert(y * y > n);
                assert(x * x <= n) by (nonlinear_arith)
                    requires x <= d - 1, (d - 1) * (d - 1) <= n, x >= 1;
                assert(x < y) by (nonlinear_arith)
                    requires x * x <= n, y * y > n, x >= 1, y >= 1;
            }
        }
    }
    r
}

/// The divisors of a number.
pub trait Factors: Sized {
    spec fn value(&self) -> nat;

    /// The divisors in increasing order (for 0, the list holding 1).
    fn factors(self) -> (r: Vec<usize>)
        ensures
            self.value() == 0 ==> r@ == seq![1usize],
            self.value() > 0 ==> forall|j: int, k: int| 0 <= j < k < r@.len() ==> r@[j] < r@[k],
            self.value() > 0 ==> forall|x: usize| #[trigger] r@.contains(x) <==> 1 <= x && self.value() % (x as nat) == 0;
}

impl Factors for usize {
    open spec fn value(&self) -> nat {
        *self as nat
    }

    fn factors(self) -> (r: Vec<usize>) {
        factors(self)
    }
}

/// Every number from 2 on has a prime divisor no larger than itself.
pub proof fn lemma_prime_divisor(x: nat, d: nat)
    requires
        2 <= d <= x,
        forall|e: nat| 2 <= e < d ==> #[trigger] (x % e) != 0,
    ensures
        exists|p: nat| 2 <= p <= x && is_prime_spec(p) && #[trigger] (x % p) == 0,
    decreases x - d,
{
    if x % d == 0 {
        assert forall|e: nat| 2 <= e < d implies #[trigger] (d % e) != 0 by {
            if d % e == 0 {
                lemma_divides_trans(e, d, x);
            }
        }
        lemma_prime_by_divisors(d);
    } else {
        if d == x {
            vstd::arithmetic::div_mod::lemma_mod_self_0(x as int);
        }
        lemma_prime_divisor(x, d + 1);
    }
}

/// How many primes below `k` divide `x`.
pub open spec fn prime_divisors_below(x: nat, k: nat) -> nat
    decreases k,
{
    if k == 0 {
        0
    } else {
        prime_divisors_below(x, (k - 1) as nat) + if is_prime_spec((k - 1) as nat) && x % ((k - 1) as nat) == 0 {
            1nat
        } else {
            0
        }
    }
}

/// Entry `x`, for `x` from 0 to `n`, is how many distinct primes divide `x` (0 for 0 and 1).
pub fn count_prime_factors(n: usize) -> (r: Vec<usize>)
    requires
        n < usize::MAX / 2,
    ensures
        r@.len() == n + 1,
        forall|x: int| 2 <= x <= n ==> r@[x] == prime_divisors_below(x as nat, (x + 1) as nat),
        n >= 1 ==> r@[0] == 0 && r@[1] == 0,
{
    let mut nums: Vec<usize> = Vec::new();
    let mut x: usize = 0;
    while x <= n
        invariant
            x <= n + 1,
            n < usize::MAX / 2,
            nums@.len() == x,
            forall|y: int| 0 <= y < x ==> nums@[y] == 0,
        decreases n + 1 - x,
    {
        nums.push(0);
        x += 1;
    }
    proof {
        assert forall|y: int| 2 <= y <= n implies #[trigger] nums@[y] == prime_divisors_below(y as nat, 2) by {
            assert(!is_prime_spec(0) && !is_prime_spec(1));
            assert(prime_divisors_below(y as nat, 0) == 0);
            assert(prime_divisors_below(y as nat, 1) == 0);
            assert(prime_divisors_below(y as nat, 2) == 0);
        }
    }
    let mut i: usize = 2;
    while i <= n
        invariant
            2 <= i <= n + 2,
            n < usize::MAX / 2,
            nums@.len() == n + 1,
            nums@[0] == 0,
            n >= 1 ==> nums@[1] == 0,
            forall|y: int| 2 <= y <= n ==> #[trigger] nums@[y] == prime_divisors_below(y as nat, i as nat),
        decreases n + 1 - i,
    {
        let prime = nums[i] == 0;
        proof {
            // nothing below i divides i exactly when no prime below i does
            if prime && !is_prime_spec(i as nat) {
                let e = choose|e: nat| 2 <= e < i && #[trigger] ((i as nat) % e) == 0;
                lemma_prime_divisor(e, 2);
                let p = choose|p: nat| 2 <= p <= e && is_prime_spec(p) && #[trigger] (e % p) == 0;
                lemma_divides_trans(p, e, i as nat);
                lemma_count_positive(i as nat, i as nat, p);
            }
            if !prime && is_prime_spec(i as nat) {
                lemma_count_zero_for_prime(i as nat, i as nat);
            }
        }
        let mut j: usize = i;
        let ghost mut k: nat = 1;
        proof {
            assert forall|y: int| 2 <= y < i implies #[trigger] ((y as nat) % (i as nat)) != 0 by {
                vstd::arithmetic::div_mod::lemma_small_mod(y as nat, i as nat);
            }
        }
        while j <= n
            invariant
                2 <= i <= n,
                n < usize::MAX / 2,
                nums@.len() == n + 1,
                nums@[0] == 0,
                nums@[1] == 0,
                j == k * i,
                k >= 1,
                prime == is_prime_spec(i as nat),
                forall|y: int|
                    2 <= y <= n ==> #[trigger] nums@[y] == prime_divisors_below(y as nat, i as nat) + if prime
                        && (y as nat) % (i as nat) == 0 && y < j {
                        1nat
                    } else {
                        0
                    },
            decreases n + i - j,
        {
            proof {
                lemma_mod_multiples_basic(k as int, i as int);
                assert(j >= 2) by (nonlinear_arith)
                    requires j == k * i, k >= 1, i >= 2;
            }
            if prime {
                let c = nums[j];
                proof {
                    lemma_count_bound(j as nat, i as nat);
                }
                nums.set(j, c + 1);
            }
            proof {
                assert((k + 1) * i == k * i + i) by (nonlinear_arith);
                assert forall|y: int| j < y < j + i implies #[trigger] ((y as nat) % (i as nat)) != 0 by {
                    if (y as nat) % (i as nat) == 0 {
                        lemma_fundamental_div_mod(y, i as int);
                        let q = y / (i as int);
                        assert(false) by (nonlinear_arith)
                            requires y == i * q, k * i < y, y < k * i + i, i >= 2;
                    }
                }
                k = k + 1;
            }
            j = j + i;
        }
        proof {
            assert forall|y: int| 2 <= y <= n implies #[trigger] nums@[y] == prime_divisors_below(y as nat, (i + 1) as nat) by {
                if prime && (y as nat) % (i as nat) == 0 {
                    assert(y < j);
                }
            }
        }
        i += 1;
    }
    proof {
        assert forall|x: int| 2 <= x <= n implies nums@[x] == prime_divisors_below(x as nat, (x + 1) as nat) by {
            assert(nums@[x] == prime_divisors_below(x as nat, i as nat));
            lemma_count_stable(x as nat, i as nat);
        }
    }
    nums
}

/// Entry `x`, for `x` from 0 to `n`, is the largest prime that divides `x` (0 for 0 and 1).
pub fn max_prime_factors(n: usize) -> (r: Vec<usize>)
    requires
        n <= 10_000,
    ensures
        r@.len() == n + 1,
        forall|x: int| 2 <= x <= n ==> r@[x] == largest_prime_below(x as nat, (x + 1) as nat),
        n >= 1 ==> r@[0] == 0 && r@[1] == 0,
{
    let mut nums: Vec<usize> = Vec::new();
    let mut x: usize = 0;
    while x <= n
        invariant
            x <= n + 1,
            n <= 10_000,
            nums@.len() == x,
            forall|y: int| 0 <= y < x ==> nums@[y] == 0,
        decreases n + 1 - x,
    {
        nums.push(0);
        x += 1;
    }
    proof {
        assert forall|y: int| 2 <= y <= n implies #[trigger] nums@[y] == largest_prime_below(y as nat, 2) by {
            assert(!is_prime_spec(0) && !is_prime_spec(1));
            assert(largest_prime_below(y as nat, 0) == 0);
            assert(largest_prime_below(y as nat, 1) == 0);
            assert(largest_prime_below(y as nat, 2) == 0);
        }
    }
    let mut i: usize = 2;
    while i <= n
        invariant
            2 <= i <= n + 2,
            n <= 10_000,
            nums@.len() == n + 1,
            nums@[0] == 0,
            n >= 1 ==> nums@[1] == 0,
            forall|y: int| 2 <= y <= n ==> #[trigger] nums@[y] == largest_prime_below(y as nat, i as nat),
        decreases n + 1 - i,
    {
        let prime = nums[i] == 0;
        proof {
            // nothing below i divides i exactly when no prime below i does
            if prime && !is_prime_spec(i as nat) {
                let e = choose|e: nat| 2 <= e < i && #[trigger] ((i as nat) % e) == 0;
                lemma_prime_divisor(e, 2);
                let p = choose|p: nat| 2 <= p <= e && is_prime_spec(p) && #[trigger] (e % p) == 0;
                lemma_divides_trans(p, e, i as nat);
                lemma_largest_positive(i as nat, i as nat, p);
            }
            if !prime && is_prime_spec(i as nat) {
                lemma_largest_zero_for_prime(i as nat, i as nat);
            }
        }
        let mut j: usize = i;
        let ghost mut k: nat = 1;
        proof {
            assert forall|y: int| 2 <= y < i implies #[trigger] ((y as nat) % (i as nat)) != 0 by {
                vstd::arithmetic::div_mod::lemma_small_mod(y as nat, i as nat);
            }
        }
        while j <= n
            invariant
                2 <= i <= n,
                n <= 10_000,
                nums@.len() == n + 1,
                nums@[0] == 0,
                nums@[1] == 0,
                j == k * i,
                k >= 1,
                prime == is_prime_spec(i as nat),
                forall|y: int|
                    2 <= y <= n ==> #[trigger] nums@[y] == if prime && (y as nat) % (i as nat) == 0 && y < j {
                        i as nat
                    } else {
                        largest_prime_below(y as nat, i as nat)
                    },
            decreases n + i - j,
        {
            proof {
                lemma_mod_multiples_basic(k as int, i as int);
                assert(j >= 2) by (nonlinear_arith)
                    requires j == k * i, k >= 1, i >= 2;
            }
            if prime {
                nums.set(j, i);
            }
            proof {
                assert((k + 1) * i == k * i + i) by (nonlinear_arith);
                assert forall|y: int| j < y < j + i implies #[trigger] ((y as nat) % (i as nat)) != 0 by {
                    if (y as nat) % (i as nat) == 0 {
                        lemma_fundamental_div_mod(y, i as int);
                        let q = y / (i as int);
                        assert(false) by (nonlinear_arith)
                            requires y == i * q, k * i < y, y < k * i + i, i >= 2;
                    }
                }
                k = k + 1;
            }
            j = j + i;
        }
        proof {
            assert forall|y: int| 2 <= y <= n implies #[trigger] nums@[y] == largest_prime_below(y as nat, (i + 1) as nat) by {
                if prime && (y as nat) % (i as nat) == 0 {
                    assert(y < j);
                }
            }
        }
        i += 1;
    }
    proof {
        assert forall|x: int| 2 <= x <= n implies nums@[x] == largest_prime_below(x as nat, (x + 1) as nat) by {
            assert(nums@[x] == largest_prime_below(x as nat, i as nat));
            lemma_largest_stable(x as nat, i as nat);
        }
    }
    nums
}

/// The largest prime below `k` that divides `x`, or 0 when there is none.
pub open spec fn largest_prime_below(x: nat, k: nat) -> nat
    decreases k,
{
    if k == 0 {
        0
    } else if is_prime_spec((k - 1) as nat) && x % ((k - 1) as nat) == 0 {
        (k - 1) as nat
    } else {
        largest_prime_below(x, (k - 1) as nat)
    }
}

proof fn lemma_largest_stable(x: nat, k: nat)
    requires
        x >= 1,
        k >= x + 1,
    ensures
        largest_prime_below(x, k) == largest_prime_below(x, x + 1),
    decreases k,
{
    if k > x + 1 {
        lemma_largest_stable(x, (k - 1) as nat);
        vstd::arithmetic::div_mod::lemma_small_mod(x, (k - 1) as nat);
    }
}

proof fn lemma_largest_positive(x: nat, k: nat, p: nat)
    requires
        2 <= p < k,
        is_prime_spec(p),
        x % p == 0,
    ensures
        largest_prime_below(x, k) > 0,
    decreases k,
{
    if k - 1 > p {
        lemma_largest_positive(x, (k - 1) as nat, p);
    }
}

proof fn lemma_largest_zero_for_prime(x: nat, k: nat)
    requires
        is_prime_spec(x),
        k <= x,
    ensures
        largest_prime_below(x, k) == 0,
    decreases k,
{
    if k > 0 {
        lemma_largest_zero_for_prime(x, (k - 1) as nat);
        let q = (k - 1) as nat;
        if is_prime_spec(q) && x % q == 0 {
            assert(2 <= q < x);
        }
    }
}

/// No number above `x >= 1` divides it, so counting stops changing past `x`.
proof fn lemma_count_stable(x: nat, k: nat)
    requires
        x >= 1,
        k >= x + 1,
    ensures
        prime_divisors_below(x, k) == prime_divisors_below(x, x + 1),
    decreases k,
{
    if k > x + 1 {
        lemma_count_stable(x, (k - 1) as nat);
        vstd::arithmetic::div_mod::lemma_small_mod(x, (k - 1) as nat);
    }
}

proof fn lemma_count_bound(x: nat, k: nat)
    ensures
        prime_divisors_below(x, k) <= k,
    decreases k,
{
    if k > 0 {
        lemma_count_bound(x, (k - 1) as nat);
    }
}

proof fn lemma_count_positive(x: nat, k: nat, p: nat)
    requires
        2 <= p < k,
        is_prime_spec(p),
        x % p == 0,
    ensures
        prime_divisors_below(x, k) > 0,
    decreases k,
{
    if k - 1 > p {
        lemma_count_positive(x, (k - 1) as nat, p);
    }
}

proof fn lemma_count_zero_for_prime(x: nat, k: nat)
    requires
        is_prime_spec(x),
        k <= x,
    ensures
        prime_divisors_below(x, k) == 0,
    decreases k,
{
    if k > 0 {
        lemma_count_zero_for_prime(x, (k - 1) as nat);
        let q = (k - 1) as nat;
        if is_prime_spec(q) && x % q == 0 {
            assert(2 <= q < x);
        }
    }
}

/// The primes up to a bound.
pub trait Primes: Sized {
    spec fn bound(&self) -> nat;

    /// The primes up to `max(n, 2)`, in increasing order.
    fn primes(self) -> (r: Vec<usize>)
        requires
            self.bound() < usize::MAX / 2,
        ensures
            forall|j: int, k: int| 0 <= j < k < r@.len() ==> r@[j] < r@[k],
            forall|x: usize| #[trigger] r@.contains(x) <==> x <= if self.bound() < 2 { 2 } else { self.bound() } && is_prime_spec(x as nat);
}

impl Primes for usize {
    open spec fn bound(&self) -> nat {
        *self as nat
    }

    fn primes(self) -> (r: Vec<usize>) {
        primes(self)
    }
}

/// The prime factorization of a number.
pub trait PrimeFactors: Sized {
    spec fn value(&self) -> nat;

    /// The prime factors in increasing order, each with its multiplicity.
    fn prime_factors(self) -> (r: Vec<PrimeFactor>)
        ensures
            self.value() >= 1 ==> factor_product(r@) == self.value(),
            self.value() <= 1 ==> r@.len() == 0,
            forall|j: int| 0 <= j < r@.len() ==> is_prime_spec(#[trigger] r@[j].0 as nat) && r@[j].1 >= 1,
            forall|j: int, k: int| 0 <= j < k < r@.len() ==> r@[j].0 < r@[k].0;

    /// Entry `x`, for `x` up to the number (at most 10 000), is the largest prime dividing `x`.
    fn max_prime_factors(self) -> (r: Vec<usize>)
        requires
            self.value() <= 10_000,
        ensures
            r@.len() == self.value() + 1,
            forall|x: int| 2 <= x <= self.value() ==> r@[x] == largest_prime_below(x as nat, (x + 1) as nat),
            self.value() >= 1 ==> r@[0] == 0 && r@[1] == 0;

    /// Entry `x`, for `x` up to the number, is how many distinct primes divide `x`.
    fn count_prime_factors(self) -> (r: Vec<usize>)
        requires
            self.value() < usize::MAX / 2,
        ensures
            r@.len() == self.value() + 1,
            forall|x: int| 2 <= x <= self.value() ==> r@[x] == prime_divisors_below(x as nat, (x + 1) as nat),
            self.value() >= 1 ==> r@[0] == 0 && r@[1] == 0;

    /// Starts listing the prime factors, smallest first.
    fn prime_factors_iter(self) -> (r: PrimeFactorsIter)
        ensures
            r.wf(),
            r.value_spec() == self.value(),
            r.next_spec() == 2;
}

impl PrimeFactors for usize {
    open spec fn value(&self) -> nat {
        *self as nat
    }

    fn prime_factors(self) -> (r: Vec<PrimeFactor>) {
        factorize(self)
    }

    fn prime_factors_iter(self) -> (r: PrimeFactorsIter) {
        PrimeFactorsIter::new(self)
    }

    fn max_prime_factors(self) -> (r: Vec<usize>) {
        max_prime_factors(self)
    }

    fn count_prime_factors(self) -> (r: Vec<usize>) {
        count_prime_factors(self)
    }
}

} // verus!
