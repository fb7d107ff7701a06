//! Number theory and integer arithmetic.
pub mod gcd;
pub mod primes;
pub mod root;
pub mod log;
pub mod modulo;

use vstd::prelude::*;

verus! {

/// The additive identity of a number type.
pub trait Zero: Sized {
    spec fn spec_zero() -> Self;

    fn zero() -> (r: Self)
        ensures
            r == Self::spec_zero();
}

/// The multiplicative identity of a number type.
pub trait One: Sized {
    spec fn spec_one() -> Self;

    fn one() -> (r: Self)
        ensures
            r == Self::spec_one();
}

impl Zero for i32 {
    open spec fn spec_zero() -> i32 {
        0
    }

    fn zero() -> (r: i32) {
        0
    }
}

impl Zero for i64 {
    open spec fn spec_zero() -> i64 {
        0
    }

    fn zero() -> (r: i64) {
        0
    }
}

impl Zero for u64 {
    open spec fn spec_zero() -> u64 {
        0
    }

    fn zero() -> (r: u64) {
        0
    }
}

impl Zero for usize {
    open spec fn spec_zero() -> usize {
        0
    }

    fn zero() -> (r: usize) {
        0
    }
}

impl One for i32 {
    open spec fn spec_one() -> i32 {
        1
    }

    fn one() -> (r: i32) {
        1
    }
}

impl One for i64 {
    open spec fn spec_one() -> i64 {
        1
    }

    fn one() -> (r: i64) {
        1
    }
}

impl One for u64 {
    open spec fn spec_one() -> u64 {
        1
    }

    fn one() -> (r: u64) {
        1
    }
}

impl One for usize {
    open spec fn spec_one() -> usize {
        1
    }

    fn one() -> (r: usize) {
        1
    }
}

/// Widening to the next larger integer type, keeping the value.
pub trait Upcast: Sized {
    type Target;

    spec fn same_value(&self, t: Self::Target) -> bool;

    fn upcast(self) -> (r: Self::Target)
        ensures
            self.same_value(r);
}

impl Upcast for i32 {
    type Target = i64;

    open spec fn same_value(&self, t: i64) -> bool {
        *self as int == t as int
    }

    fn upcast(self) -> (r: i64) {
        self as i64
    }
}

impl Upcast for i64 {
    type Target = i128;

    open spec fn same_value(&self, t: i128) -> bool {
        *self as int == t as int
    }

    fn upcast(self) -> (r: i128) {
        self as i128
    }
}

impl Upcast for u32 {
    type Target = u64;

    open spec fn same_value(&self, t: u64) -> bool {
        *self as int == t as int
    }

    fn upcast(self) -> (r: u64) {
        self as u64
    }
}

impl Upcast for u64 {
    type Target = u128;

    open spec fn same_value(&self, t: u128) -> bool {
        *self as int == t as int
    }

    fn upcast(self) -> (r: u128) {
        self as u128
    }
}

/// A number read as a value of type `T`; for `T` the number's own type, the number itself.
pub trait AsPrimitive<T>: Sized {
    spec fn as_spec(&self) -> T;

    fn as_primitive(&self) -> (r: T)
        ensures
            r == self.as_spec();
}

impl AsPrimitive<usize> for usize {
    open spec fn as_spec(&self) -> usize {
        *self
    }

    fn as_primitive(&self) -> (r: usize) {
        *self
    }
}

impl AsPrimitive<i64> for i64 {
    open spec fn as_spec(&self) -> i64 {
        *self
    }

    fn as_primitive(&self) -> (r: i64) {
        *self
    }
}

impl AsPrimitive<u64> for u64 {
    open spec fn as_spec(&self) -> u64 {
        *self
    }

    fn as_primitive(&self) -> (r: u64) {
        *self
    }
}

/// A value with a multiplicative inverse, when it has one.
pub trait Invertible: Sized {
    type Output;

    /// `r` is an inverse of the value.
    spec fn is_inverse(&self, r: Self::Output) -> bool;

    /// Whether the value has an inverse.
    spec fn invertible(&self) -> bool;

    fn inverse(&self) -> (r: Option<Self::Output>)
        ensures
            r is Some <==> self.invertible(),
            r matches Some(x) ==> self.is_inverse(x);
}

} // verus!
