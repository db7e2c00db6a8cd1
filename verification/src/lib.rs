//! A small compiler front end, verified.
//!
//! A text of statements (integer arithmetic, variables, assignment,
//! parentheses, `return`) is scanned into tokens ([`token`]), built into
//! expression trees one token at a time ([`exps`], [`ast`]), and lowered to a
//! function in a textual, register-based intermediate representation
//! ([`gen`]). Every function states what it returns over mathematical trees
//! and sequences of characters, and is proved to return that.
//!
//! Beside the functions stand the theorems that say why the result is right:
//! building gives back the tree that precedence and left-to-right
//! association demand ([`grammar`]), scanning gives back the tokens that were
//! written down ([`source`]), and the written instructions compute the value
//! of the program ([`machine`]).

pub mod ast;
pub mod error;
pub mod exps;
pub mod gen;
pub mod grammar;
pub mod machine;
pub mod source;
pub mod text;
pub mod token;

use vstd::prelude::*;
use crate::ast::{make_ast, parse};
use crate::error::ParseError;
use crate::exps::Tree;
use crate::gen::{emit, gen, lemma_emit_ungroup, ungroup_all};
use crate::grammar::{canonical, lemma_parse_unparse, nested, unparse_program};
use crate::machine::{
    body, computable, lemma_emit_lists_body, lemma_program_returns, listing, outcome,
    sound_program, value, Machine,
};
use crate::source::{lemma_scan_source, lexical, source};
use crate::token::{lemma_scan_len, scan, tokenize};

verus! {

/// The function text that a source text compiles to, or the error that
/// ends the compilation.
pub open spec fn compile(text: Seq<char>) -> Result<Seq<char>, ParseError> {
    match parse(scan(text)) {
        Ok(program) => Ok(emit(program)),
        Err(e) => Err(e),
    }
}

/// The text, or the error, that a compilation handed back.
pub open spec fn compiled(r: Result<String, ParseError>) -> Result<Seq<char>, ParseError> {
    match r {
        Ok(ir) => Ok(ir@),
        Err(e) => Err(e),
    }
}

/// Compiles a source text: scans it, builds the program and writes the
/// function that computes it. Nothing is written for a text that is
/// refused.
///
/// A program takes at most one register per token, and the registers are
/// numbered from 1 within `usize`: so the text must have fewer than
/// `usize::MAX` characters.
pub fn compile_buffer(buf: &str) -> (r: Result<String, ParseError>)
    requires
        buf@.len() < usize::MAX,
    ensures
        compiled(r) == compile(buf@),
{
    let tokens = tokenize(buf);
    proof {
        lemma_scan_len(buf@);
    }
    match make_ast(tokens) {
        Ok(ast) => Ok(gen(ast)),
        Err(e) => Err(e),
    }
}

/// A text that is read as the tokens of a canonical program compiles to
/// the function that is written for that very program: building gives the
/// program back, nested as precedence and left-to-right association
/// demand.
pub proof fn lemma_compile_written(text: Seq<char>, program: Seq<Tree>)
    requires
        canonical(program),
        scan(text) == unparse_program(program),
    ensures
        compile(text) == Ok::<Seq<char>, ParseError>(emit(program)),
{
    lemma_parse_unparse(program);
}

/// Parentheses that the nesting does not need change nothing in what is
/// compiled: two texts that are read as canonical programs which differ
/// only in their groups compile to the same function.
pub proof fn lemma_compile_ignores_parentheses(
    wrapped_text: Seq<char>,
    wrapped: Seq<Tree>,
    plain_text: Seq<char>,
    plain: Seq<Tree>,
)
    requires
        canonical(wrapped),
        canonical(plain),
        scan(wrapped_text) == unparse_program(wrapped),
        scan(plain_text) == unparse_program(plain),
        ungroup_all(wrapped) == ungroup_all(plain),
    ensures
        compile(wrapped_text) == compile(plain_text),
        compile(plain_text) == Ok::<Seq<char>, ParseError>(emit(plain)),
{
    lemma_compile_written(wrapped_text, wrapped);
    lemma_compile_written(plain_text, plain);
    lemma_emit_ungroup(wrapped);
    lemma_emit_ungroup(plain);
}

/// A text that is read as a canonical and sound program compiles to a
/// function whose body runs in order and returns the value that the
/// program is run for: that of its last statement, with every variable
/// standing for what was assigned to it.
pub proof fn lemma_compiled_program_returns(text: Seq<char>, program: Seq<Tree>)
    requires
        canonical(program),
        sound_program(program),
        scan(text) == unparse_program(program),
    ensures
        compile(text) == Ok::<Seq<char>, ParseError>(
            "define i32 @main() {\n"@ + listing(body(program)) + "}"@,
        ),
        Machine::fresh().run(body(program)) is Some,
        Machine::fresh().run(body(program))->0.returned == Some(outcome(program)),
{
    lemma_compile_written(text, program);
    lemma_emit_lists_body(program);
    lemma_program_returns(program);
}

/// The program of one statement that computes `e`, after `return` or
/// without it.
pub open spec fn single(e: Tree, explicit: bool) -> Seq<Tree> {
    if explicit {
        seq![Tree::Return(Box::new(e))]
    } else {
        seq![e]
    }
}

/// An expression of numbers, operators and parentheses, in which nothing
/// is divided by zero and every result fits a word, compiles, after
/// `return` or without it and however it is spaced, to a function that
/// returns the value of the expression under the usual precedence.
pub proof fn lemma_arithmetic_returns_its_value(text: Seq<char>, e: Tree, explicit: bool)
    requires
        nested(e, 0),
        computable(e, Map::empty()),
        scan(text) == unparse_program(single(e, explicit)),
    ensures
        compile(text) == Ok::<Seq<char>, ParseError>(
            "define i32 @main() {\n"@ + listing(body(single(e, explicit))) + "}"@,
        ),
        Machine::fresh().run(body(single(e, explicit))) is Some,
        Machine::fresh().run(body(single(e, explicit)))->0.returned == Some(
            value(e, Map::empty()),
        ),
{
    let program = single(e, explicit);
    assert(program.take(0) =~= Seq::empty());
    assert(program.drop_last() =~= Seq::empty());
    lemma_compiled_program_returns(text, program);
}

/// Such an expression can be written down: its tokens, each followed by a
/// space, are a text that is read as those tokens.
pub proof fn lemma_arithmetic_is_written(e: Tree, explicit: bool)
    requires
        computable(e, Map::empty()),
    ensures
        scan(source(single(e, explicit))) == unparse_program(single(e, explicit)),
{
    lemma_computable_lexical(e);
    lemma_scan_source(single(e, explicit));
}

proof fn lemma_computable_lexical(e: Tree)
    requires
        computable(e, Map::empty()),
    ensures
        lexical(e),
    decreases e,
{
    match e {
        Tree::Binary(l, _, r) => {
            lemma_computable_lexical(*l);
            lemma_computable_lexical(*r);
        },
        Tree::Group(inner) => lemma_computable_lexical(*inner),
        _ => {},
    }
}

} // verus!
