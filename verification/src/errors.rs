//! What can go wrong between text and value.

use vstd::prelude::*;
use crate::tokenizer::Token;

verus! {

/// What the tokenizer, the conversion or the evaluation fails with.
#[derive(Debug, PartialEq)]
pub enum SyaError {
    /// The evaluator met a parenthesis.
    InvalidToken(Token),
    /// The tokenizer met a character that no token begins with.
    InvalidChar(char),
    /// The evaluation did not end with exactly one value.
    InvalidInput,
    /// A closing parenthesis with no opening one before it.
    ExpectedChar(char),
    /// A unary token whose sign is neither `+` nor `-`.
    WrongUnary(char),
    /// A binary operator whose sign names no operation.
    InvalidOperation(char),
    /// A literal or a result that its type cannot hold; the text names it.
    NumberOverflow(String),
    DivisionByZero,
    /// An operator found fewer operands than this on the stack.
    ExpectedStackSize(u32),
}

/// An error as specifications see it: the text of a `NumberOverflow` is a
/// sequence of characters.
pub ghost enum Fault {
    InvalidToken(Token),
    InvalidChar(char),
    InvalidInput,
    ExpectedChar(char),
    WrongUnary(char),
    InvalidOperation(char),
    NumberOverflow(Seq<char>),
    DivisionByZero,
    ExpectedStackSize(u32),
}

impl View for SyaError {
    type V = Fault;

    open spec fn view(&self) -> Fault {
        match self {
            SyaError::InvalidToken(t) => Fault::InvalidToken(*t),
            SyaError::InvalidChar(c) => Fault::InvalidChar(*c),
            SyaError::InvalidInput => Fault::InvalidInput,
            SyaError::ExpectedChar(c) => Fault::ExpectedChar(*c),
            SyaError::WrongUnary(c) => Fault::WrongUnary(*c),
            SyaError::InvalidOperation(c) => Fault::InvalidOperation(*c),
            SyaError::NumberOverflow(s) => Fault::NumberOverflow(s@),
            SyaError::DivisionByZero => Fault::DivisionByZero,
            SyaError::ExpectedStackSize(n) => Fault::ExpectedStackSize(*n),
        }
    }
}

/// Whether a result is the one that the model gives: the same value, or an
/// error that reads as the same fault.
pub open spec fn agrees<T>(r: Result<T, SyaError>, model: Result<T, Fault>) -> bool {
    match (r, model) {
        (Ok(a), Ok(b)) => a == b,
        (Err(e), Err(f)) => e@ == f,
        _ => false,
    }
}

} // verus!
