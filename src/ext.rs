//! Extensions of slices, vectors and tuples.
pub mod slice;
pub mod vec;
pub mod tuple;
pub mod iter;
