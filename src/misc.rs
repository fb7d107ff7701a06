//! Miscellaneous helpers.
pub mod cards;
