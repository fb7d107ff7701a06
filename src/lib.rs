//! Helpers for competitive programming, with a bundler that inlines the library modules a
//! solution uses into one source file.
pub mod bundle;
pub mod collections;
pub mod ext;
pub mod io;
pub mod math;
pub mod misc;
