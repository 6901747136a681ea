use vstd::prelude::*;

pub mod interpreter;
pub mod parsing;
mod strings;
pub mod values;

pub use interpreter::Interpreter;

verus! {

} // verus!
