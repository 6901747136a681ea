use vstd::prelude::*;

pub mod literal;
pub mod operator;
pub mod tape;
pub mod value;

pub use operator::Operator;

verus! {

} // verus!
