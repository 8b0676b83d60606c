use vstd::prelude::*;

verus! {

/// A serialization or deserialization error, with its message.
#[derive(Debug, Clone)]
pub struct Error(pub String);

/// The error with message `s`.
pub fn err(s: &str) -> (e: Error)
    ensures
        e.0@ == s@,
{
    Error(s.to_owned())
}

/// What kind of value comes next in an input.
#[derive(Debug, Clone, Copy, PartialEq, Eq, Structural)]
pub enum Kind {
    Null,
    Bool,
    Num,
    Str,
    Sequence,
    Mapping,
}

/// How a number in an input is best read.
#[derive(Debug, Clone, Copy, PartialEq, Eq, Structural)]
pub enum NumKind {
    I64,
    U64,
    F64,
}

} // verus!
