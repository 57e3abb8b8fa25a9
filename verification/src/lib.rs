//! An interpreter (and a small compiler to Rust source) for an extended
//! Brainfuck dialect with functions `( )`, shared scopes `{ }` and
//! backtick comments.

pub mod bridge;
pub mod text;
pub mod error;
pub mod lang;

pub use error::Error;
pub use lang::{Lang, TokLang};
pub mod scan;
pub mod compiler;
pub mod interp;
pub mod cli;
pub mod comments;
