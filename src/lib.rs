//! Frothy: a small postfix expression language.
//!
//! Source text is turned into tokens by [`token::Tokens`], reduced into a forest
//! of [`ast::Ast`] nodes by [`ast::Parser`], and walked by [`eval::Interpreter`]
//! against one mutable variable environment.

use vstd::prelude::*;

pub mod ast;
pub mod error;
pub mod eval;
pub mod laws;
pub mod token;
pub mod util;

use crate::error::{Error, SpecError};
use crate::eval::{initial_state, interpret_spec, values_result_view, Interpreter, SpecValue, Value};

verus! {

/// What evaluating the program `source` gives: the value of each top-level form in
/// order, or the first error.
pub open spec fn evaluate_spec(source: Seq<char>) -> Result<Seq<SpecValue>, SpecError> {
    interpret_spec(initial_state(), vstd::utf8::encode_utf8(source)).0
}

/// Lexes, parses and evaluates `source` in a new interpreter.
pub fn evaluate(source: &str) -> (r: Result<Vec<Value>, Error>)
    ensures
        values_result_view(r) == evaluate_spec(source@),
{
    let mut interpreter = Interpreter::new();
    interpreter.interpret(source)
}

} // verus!
