//! The objects that live on the heaps.
use vstd::prelude::*;
use crate::interpreter::{RuntimeError, RuntimeErrorV};
use crate::strings::string_clone;

verus! {

/// A text on a heap.
#[derive(Clone, Debug)]
pub struct Text {
    pub inner: String,
}

impl Text {
    /// The text holding `value`.
    pub fn from_string(value: String) -> (r: Text)
        ensures
            r.inner == value,
            r.inner@ == value@,
    {
        Text { inner: value }
    }
}

/// A function object (none of its contents are kept yet).
#[derive(Clone, Copy, Debug)]
pub struct Function {}

/// An array object (none of its contents are kept yet).
#[derive(Clone, Copy, Debug)]
pub struct Array {}

/// An object of the tape's heap: a text, a number (kept as the bits of the
/// `f32` the tape stores), or a boolean.
#[derive(Debug)]
pub enum TapeObject {
    Text(Text),
    Number(u32),
    Boolean(bool),
}

/// An object of the heap of literals: a text, or a number (the bits of its
/// `f32`).
#[derive(Debug)]
pub enum LiteralObject {
    Text(Text),
    Number(u32),
}


/// A number as a program computes with it: the bits of an `f64`, or the
/// bits of the `f32` that the tape keeps.
#[derive(Clone, Copy, Debug, PartialEq, Eq, Structural)]
pub enum Number {
    Wide(u64),
    Narrow(u32),
}

/// A value of a running program.
#[derive(Debug)]
pub enum Value {
    String(String),
    Number(Number),
    Boolean(bool),
    Error(RuntimeError),
}

pub enum ValueV {
    String(Seq<char>),
    Number(Number),
    Boolean(bool),
    Error(RuntimeErrorV),
}

impl View for Value {
    type V = ValueV;

    open spec fn view(&self) -> ValueV {
        match self {
            Value::String(s) => ValueV::String(s@),
            Value::Number(n) => ValueV::Number(*n),
            Value::Boolean(b) => ValueV::Boolean(*b),
            Value::Error(e) => ValueV::Error(e@),
        }
    }
}

impl Value {
    /// A copy of the value.
    pub fn duplicate(&self) -> (r: Value)
        ensures
            r@ == self@,
    {
        match self {
            Value::String(s) => Value::String(string_clone(s)),
            Value::Number(n) => Value::Number(*n),
            Value::Boolean(b) => Value::Boolean(*b),
            Value::Error(e) => Value::Error(e.duplicate()),
        }
    }
}

} // verus!
