//! The crate-wide error type.

use vstd::prelude::*;

use crate::ast::AstError;
use crate::eval::{InterpreterError, SpecValue};
use crate::token::{SpecToken, TokenError};

verus! {

/// Any error of lexing, parsing or evaluating a program.
#[derive(Debug)]
pub enum Error {
    Token(TokenError),
    Ast(AstError),
    Interpreter(InterpreterError),
    /// An operator needed this many operands but found that many.
    NotEnoughArguments(usize, usize),
}

/// What an [`Error`] stands for, with text as characters and values by their models.
pub enum SpecError {
    Token(TokenError),
    Unexpected(SpecToken),
    ExpectedCloseBrace,
    ExpectedBlock,
    ExpectedIdentAndValue,
    VariableUndefined(Seq<char>),
    NotCallable(SpecValue),
    CallDepthExceeded,
    NotEnoughArguments(usize, usize),
}

impl View for Error {
    type V = SpecError;

    open spec fn view(&self) -> SpecError {
        match self {
            Error::Token(e) => SpecError::Token(*e),
            Error::Ast(AstError::Unexpected(t)) => SpecError::Unexpected(t@),
            Error::Ast(AstError::ExpectedCloseBrace) => SpecError::ExpectedCloseBrace,
            Error::Ast(AstError::ExpectedBlock) => SpecError::ExpectedBlock,
            Error::Ast(AstError::ExpectedIdentAndValue) => SpecError::ExpectedIdentAndValue,
            Error::Interpreter(InterpreterError::VariableUndefined(name)) => SpecError::VariableUndefined(name@),
            Error::Interpreter(InterpreterError::NotCallable(v)) => SpecError::NotCallable(v@),
            Error::Interpreter(InterpreterError::CallDepthExceeded) => SpecError::CallDepthExceeded,
            Error::NotEnoughArguments(n, m) => SpecError::NotEnoughArguments(*n, *m),
        }
    }
}

} // verus!
