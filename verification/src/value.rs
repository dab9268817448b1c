//! The canonical value model: a source-agnostic representation of YAML and
//! JSON documents.
use crate::ordered_map::OrderedMap;
use vstd::prelude::*;

verus! {

/// Canonical value model.
#[derive(Debug, PartialEq)]
pub enum Value {
    Null,
    Bool(bool),
    Number(Number),
    String(String),
    Array(Vec<Value>),
    Object(OrderedMap<Value>),
}

/// Number type distinguishing integer from float.
#[derive(Debug, PartialEq)]
pub enum Number {
    Integer(i64),
    Float(FloatNumber),
}

/// A double-precision number, held as its IEEE 754 bit pattern together
/// with its display text (the shortest text that reads back as the same
/// double).
#[derive(Debug, PartialEq)]
pub struct FloatNumber {
    /// The IEEE 754 binary64 bit pattern.
    pub bits: u64,
    /// The display text of the number.
    pub text: String,
}

impl FloatNumber {
    /// A number from its bit pattern and display text.
    pub fn new(bits: u64, text: String) -> (r: Self)
        ensures
            r.bits == bits,
            r.text == text,
    {
        FloatNumber { bits, text }
    }
}

/// The name of a value's kind, as used in type-mismatch messages.
pub open spec fn kind_name(v: Value) -> Seq<char> {
    match v {
        Value::Null => "null"@,
        Value::Bool(_) => "boolean"@,
        Value::Number(Number::Integer(_)) => "integer"@,
        Value::Number(Number::Float(_)) => "float"@,
        Value::String(_) => "string"@,
        Value::Array(_) => "array"@,
        Value::Object(_) => "object"@,
    }
}

/// The name of a value's kind, as used in type-mismatch messages.
pub fn value_kind_name(v: &Value) -> (r: &'static str)
    ensures
        r@ == kind_name(*v),
{
    match v {
        Value::Null => "null",
        Value::Bool(_) => "boolean",
        Value::Number(Number::Integer(_)) => "integer",
        Value::Number(Number::Float(_)) => "float",
        Value::String(_) => "string",
        Value::Array(_) => "array",
        Value::Object(_) => "object",
    }
}

} // verus!
