use vstd::prelude::*;

verus! {

/// A literal of the source text. A number keeps the text it was written as;
/// it is a text that `str::parse::<f64>` accepts.
#[derive(Clone, Debug)]
pub enum Literal {
    String(String),
    Number(String),
}

pub enum LiteralV {
    String(Seq<char>),
    Number(Seq<char>),
}

impl View for Literal {
    type V = LiteralV;

    open spec fn view(&self) -> LiteralV {
        match self {
            Literal::String(s) => LiteralV::String(s@),
            Literal::Number(s) => LiteralV::Number(s@),
        }
    }
}

impl Literal {
    /// A copy of this literal.
    pub fn duplicate(&self) -> (r: Literal)
        ensures
            r@ == self@,
    {
        match self {
            Literal::String(s) => Literal::String(crate::strings::string_clone(s)),
            Literal::Number(s) => Literal::Number(crate::strings::string_clone(s)),
        }
    }
}

} // verus!
