//! Bundling a program and the library modules it uses into one source file.
pub mod path;
pub mod item;
pub mod expand;
pub mod analyze;
pub mod emit;
pub mod pipeline;
pub mod laws;

