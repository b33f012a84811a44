//! The two kinds of failure: syntax errors from the parser and runtime
//! errors from evaluation.
use crate::num::Int;
use vstd::prelude::*;

verus! {

#[derive(Debug, Clone, PartialEq, Eq)]
pub enum SyntaxError {
    InvalidSymbol(char),
    /// true for a `(` that is never closed, false for a `)` that was never opened
    UnmatchedParenthesis(bool),
    LonelyInverse,
}

pub open spec fn syntax_note(e: SyntaxError) -> Seq<char> {
    match e {
        SyntaxError::InvalidSymbol(_) => "check the docs for a list of valid symbols"@,
        SyntaxError::UnmatchedParenthesis(true) => "there is a missing closing parenthesis in the code"@,
        SyntaxError::UnmatchedParenthesis(false) => "there is a missing opening parenthesis in the code"@,
        SyntaxError::LonelyInverse => "must have something to invert"@,
    }
}

impl SyntaxError {
    /// How to mend the error.
    pub fn note(&self) -> (r: String)
        ensures
            r@ == syntax_note(*self),
    {
        match self {
            SyntaxError::InvalidSymbol(_) => "check the docs for a list of valid symbols".to_owned(),
            SyntaxError::UnmatchedParenthesis(open) => {
                if *open {
                    "there is a missing closing parenthesis in the code".to_owned()
                } else {
                    "there is a missing opening parenthesis in the code".to_owned()
                }
            },
            SyntaxError::LonelyInverse => "must have something to invert".to_owned(),
        }
    }
}

#[derive(Debug, Clone, PartialEq, Eq)]
pub enum RuntimeError {
    FunctionNotFound(char),
    ListTypeMissmatch { first: String, second: String },
    ListElementSizeMissmatch { first: usize, second: usize },
    InvalidPop { len: usize, arity: usize },
    InvalidFoldWith(usize),
    InvalidMapWith(usize),
    InvalidFilterWith(usize),
    TypeMissmatch { expected: String, got: String },
    ExponentTooBig(Int),
    ZerothRoot,
    DivideByZero,
    NoInverse,
    InverseOfNonFunction,
    InvalidIotaValue,
}

pub open spec fn runtime_note(e: RuntimeError) -> Seq<char> {
    match e {
        RuntimeError::FunctionNotFound(_) => "check the docs for a list of functions"@,
        RuntimeError::ListTypeMissmatch { .. } => "ensure the list has elements of the same type"@,
        RuntimeError::ListElementSizeMissmatch { .. } => "ensure the list has elements of the same size"@,
        RuntimeError::InvalidPop { .. } => "ensure you are using the correct function or add more values to the stack"@,
        RuntimeError::InvalidFoldWith(_) => "can only fold using binary operations"@,
        RuntimeError::InvalidMapWith(_) => "can only map using unary operations"@,
        RuntimeError::InvalidFilterWith(_) => "can only filter using unary operations"@,
        RuntimeError::TypeMissmatch { .. } => "ensure the function you're using works for the type of values on the stack"@,
        RuntimeError::ExponentTooBig(_) => "max is 4294967295 (u32::MAX)"@,
        RuntimeError::ZerothRoot => "try filtering the 0s on the stack"@,
        RuntimeError::DivideByZero => "try filtering the 0s on the stack\nuse ε to produce a small number instead of 0"@,
        RuntimeError::NoInverse => "rethink your logic"@,
        RuntimeError::InverseOfNonFunction => "ensure inverse comes after a function"@,
        RuntimeError::InvalidIotaValue => "iota takes a positive integer that fits in 64 bits"@,
    }
}

impl RuntimeError {
    /// How to mend the error.
    pub fn note(&self) -> (r: String)
        ensures
            r@ == runtime_note(*self),
    {
        match self {
            RuntimeError::FunctionNotFound(_) => "check the docs for a list of functions".to_owned(),
            RuntimeError::ListTypeMissmatch { .. } => "ensure the list has elements of the same type".to_owned(),
            RuntimeError::ListElementSizeMissmatch { .. } => "ensure the list has elements of the same size".to_owned(),
            RuntimeError::InvalidPop { .. } => "ensure you are using the correct function or add more values to the stack".to_owned(),
            RuntimeError::InvalidFoldWith(_) => "can only fold using binary operations".to_owned(),
            RuntimeError::InvalidMapWith(_) => "can only map using unary operations".to_owned(),
            RuntimeError::InvalidFilterWith(_) => "can only filter using unary operations".to_owned(),
            RuntimeError::TypeMissmatch { .. } => "ensure the function you're using works for the type of values on the stack".to_owned(),
            RuntimeError::ExponentTooBig(_) => "max is 4294967295 (u32::MAX)".to_owned(),
            RuntimeError::ZerothRoot => "try filtering the 0s on the stack".to_owned(),
            RuntimeError::DivideByZero => "try filtering the 0s on the stack\nuse ε to produce a small number instead of 0".to_owned(),
            RuntimeError::NoInverse => "rethink your logic".to_owned(),
            RuntimeError::InverseOfNonFunction => "ensure inverse comes after a function".to_owned(),
            RuntimeError::InvalidIotaValue => "iota takes a positive integer that fits in 64 bits".to_owned(),
        }
    }
}

} // verus!
