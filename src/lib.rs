//! A small compiler from a Lisp-like call language, `(add 2 (subtract 4 2))`,
//! to C-style calls, `add(2, subtract(4, 2));`: a lexer, a parser, a
//! traversal engine, a transformer and a code generator, each with a
//! contract over a mathematical model of its input and output.
use vstd::prelude::*;

pub mod ast;
pub mod codegen;
pub mod lexer;
pub mod parser;
pub mod transformer;
pub mod traverse;

use crate::codegen::{gen, generate};
use crate::lexer::{LexError, lex, tokenizer};
use crate::parser::{ParseError, parse, parse_grammar};
use crate::transformer::{transform, transform_ast};

verus! {

/// The first error met while compiling: lexical or syntactic.
#[derive(PartialEq, Eq, Structural, Clone, Copy, Debug)]
pub enum CompileError {
    Lex(LexError),
    Parse(ParseError),
}

/// The text that `s` compiles to, or the first error in it.
pub open spec fn compile_spec(s: Seq<char>) -> Result<Seq<char>, CompileError> {
    match lex(s, 0) {
        Err(e) => Err(CompileError::Lex(e)),
        Ok(t) => match parse_grammar(t) {
            Err(e) => Err(CompileError::Parse(e)),
            Ok(p) => Ok(gen(transform_ast(p))),
        },
    }
}

/// Compilation is a function of the source text alone: compiling the same
/// text twice gives the same output or the same error.
pub proof fn lemma_compile_deterministic(a: Seq<char>, b: Seq<char>)
    requires
        a == b,
    ensures
        compile_spec(a) == compile_spec(b),
{
}

/// Compiles source text to target text: tokenize, parse, transform,
/// generate, stopping at the first error.
pub fn compile(source: &str) -> (r: Result<String, CompileError>)
    ensures
        match compile_spec(source@) {
            Ok(text) => r is Ok && r->Ok_0@ == text,
            Err(e) => r == Err::<String, CompileError>(e),
        },
{
    let tokens = match tokenizer(source) {
        Ok(tokens) => tokens,
        Err(e) => {
            return Err(CompileError::Lex(e));
        },
    };
    let program = match parse(tokens) {
        Ok(p) => p,
        Err(e) => {
            return Err(CompileError::Parse(e));
        },
    };
    let target = transform(&program);
    Ok(generate(&target))
}

} // verus!
