//! Code generation for table-driven lexers, and the verified runtime that the
//! generated lexers execute.

pub mod def;
pub mod generate;
pub mod input;
mod text;
pub mod runtime;
pub mod laws;
pub mod utf8_laws;
