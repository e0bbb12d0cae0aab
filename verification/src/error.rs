//! The error type and all related types.
use crate::context::Symbol;
use crate::expr::{Expr, ExprV};
use crate::number::Number;
use crate::rational::Rat;
use vstd::prelude::*;

verus! {

/// The error type used across the library.
#[derive(Debug)]
pub enum Error {
    /// The function received an invalid argument count.
    ArgumentCount(Symbol),
    /// The expression tried to divide by zero.
    DivisionByZero,
    /// The parser encountered an invalid number.
    InvalidNumber(Number),
    /// The parser encountered an invalid string.
    InvalidString(String),
    /// The provided value is not declared in the current context.
    UndeclaredValue(Symbol),
}


/// The value of an error.
pub enum ErrorV {
    ArgumentCount(Seq<char>),
    DivisionByZero,
    InvalidNumber(Rat),
    InvalidString(Seq<char>),
    UndeclaredValue(Seq<char>),
}

impl View for Error {
    type V = ErrorV;

    open spec fn view(&self) -> ErrorV {
        match self {
            Error::ArgumentCount(s) => ErrorV::ArgumentCount(s@),
            Error::DivisionByZero => ErrorV::DivisionByZero,
            Error::InvalidNumber(n) => ErrorV::InvalidNumber(n@),
            Error::InvalidString(s) => ErrorV::InvalidString(s@),
            Error::UndeclaredValue(s) => ErrorV::UndeclaredValue(s@),
        }
    }
}

/// The value of the result of an operation on expressions.
pub open spec fn result_view(r: Result<Expr, Error>) -> Result<ExprV, ErrorV> {
    match r {
        Ok(e) => Ok(e@),
        Err(e) => Err(e@),
    }
}
} // verus!
