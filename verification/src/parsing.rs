use vstd::prelude::*;

pub mod lexer;
pub mod literals;
pub mod parser;
pub mod text;
pub mod words;

pub use parser::Parser;

verus! {

} // verus!
