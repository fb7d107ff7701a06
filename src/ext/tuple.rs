//! Passing a whole tuple to a function.
use vstd::prelude::*;

verus! {

/// A tuple handed to a function as one value.
pub trait TupleTransform<F: FnOnce(Self) -> R, R>: Sized {
    /// `f(self)`.
    fn transform(self, f: F) -> (r: R)
        requires
            f.requires((self,)),
        ensures
            f.ensures((self,), r);
}

impl<F: FnOnce((T, U)) -> R, R, T, U> TupleTransform<F, R> for (T, U) {
    fn transform(self, f: F) -> (r: R) {
        f(self)
    }
}

impl<F: FnOnce((T, U, V)) -> R, R, T, U, V> TupleTransform<F, R> for (T, U, V) {
    fn transform(self, f: F) -> (r: R) {
        f(self)
    }
}

} // verus!
