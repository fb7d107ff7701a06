//! Collections.
pub mod arr_2d;
