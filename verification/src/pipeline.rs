//! The four stages, each as one function, and their composition.

use crate::ast::{LetStatementView, Program};
use crate::js_emitter::{emit_program, JsEmitter};
use crate::lexer::{
    lexical_message, token_views, tokens_from, Lexer, LexicalError, LexicalErrorView,
    SpannedToken, SpannedTokenView,
};
use crate::parser::{parse_program_at, syntax_message, Parser, SyntaxError, SyntaxErrorView};
use crate::type_checker::{
    check_program_spec, type_message, TypeChecker, TypeError, TypeErrorView,
};
use vstd::prelude::*;

verus! {

/// The failure of a compilation, by the stage that failed.
#[derive(Debug, PartialEq)]
pub enum CompileError {
    Lexical(LexicalError),
    Syntax(SyntaxError),
    Type(TypeError),
}

pub enum CompileErrorView {
    Lexical(LexicalErrorView),
    Syntax(SyntaxErrorView),
    Type(TypeErrorView),
}

impl View for CompileError {
    type V = CompileErrorView;

    open spec fn view(&self) -> CompileErrorView {
        match self {
            CompileError::Lexical(e) => CompileErrorView::Lexical(e@),
            CompileError::Syntax(e) => CompileErrorView::Syntax(e@),
            CompileError::Type(e) => CompileErrorView::Type(e@),
        }
    }
}

/// The diagnostic text of a failed compilation.
pub open spec fn compile_message(e: CompileErrorView) -> Seq<char> {
    match e {
        CompileErrorView::Lexical(e) => lexical_message(e),
        CompileErrorView::Syntax(e) => syntax_message(e),
        CompileErrorView::Type(e) => type_message(e),
    }
}

impl CompileError {
    pub fn message(&self) -> (r: String)
        ensures
            r@ == compile_message(self@),
    {
        match self {
            CompileError::Lexical(e) => e.message(),
            CompileError::Syntax(e) => e.message(),
            CompileError::Type(e) => e.message(),
        }
    }
}

/// The tokens of a source text.
pub open spec fn tokenize_spec(source: Seq<char>) -> Result<
    Seq<SpannedTokenView>,
    LexicalErrorView,
> {
    tokens_from(source, 0)
}

/// The program that a token sequence spells.
pub open spec fn parse_spec(tokens: Seq<SpannedTokenView>) -> Result<
    Seq<LetStatementView>,
    SyntaxErrorView,
> {
    parse_program_at(tokens, 0)
}

/// The type error of a program, if it has one.
pub open spec fn check_spec(program: Seq<LetStatementView>) -> Option<TypeErrorView> {
    check_program_spec(program).failure
}

/// The output for a source text: the emitted program if the text lexes,
/// parses and checks, else the failure of the first stage that fails.
pub open spec fn compile_spec(source: Seq<char>) -> Result<Seq<char>, CompileErrorView> {
    match tokenize_spec(source) {
        Err(e) => Err(CompileErrorView::Lexical(e)),
        Ok(tokens) => match parse_spec(tokens) {
            Err(e) => Err(CompileErrorView::Syntax(e)),
            Ok(program) => match check_spec(program) {
                Some(e) => Err(CompileErrorView::Type(e)),
                None => Ok(emit_program(program)),
            },
        },
    }
}

pub fn tokenize(source: &str) -> (r: Result<Vec<SpannedToken>, LexicalError>)
    requires
        source@.len() < usize::MAX,
    ensures
        match r {
            Ok(tokens) => Ok(token_views(tokens@)),
            Err(e) => Err(e@),
        } == tokenize_spec(source@),
{
    let mut lexer = Lexer::new(source);
    lexer.collect_tokens()
}

pub fn parse(tokens: Vec<SpannedToken>) -> (r: Result<Program, SyntaxError>)
    ensures
        match r {
            Ok(program) => Ok(program@),
            Err(e) => Err(e@),
        } == parse_spec(token_views(tokens@)),
{
    let mut parser = Parser::new(tokens);
    parser.parse_program()
}

pub fn check(program: &Program) -> (r: Result<(), TypeError>)
    ensures
        match r {
            Ok(_) => None,
            Err(e) => Some(e@),
        } == check_spec(program@),
{
    let mut checker = TypeChecker::new();
    checker.check_program(program)
}

pub fn emit(program: &Program) -> (output: String)
    ensures
        output@ == emit_program(program@),
{
    JsEmitter::new().generate(program)
}

/// Runs the four stages in order and stops at the first that fails.
pub fn compile(source: &str) -> (r: Result<String, CompileError>)
    requires
        source@.len() < usize::MAX,
    ensures
        match r {
            Ok(output) => Ok(output@),
            Err(e) => Err(e@),
        } == compile_spec(source@),
{
    let tokens = match tokenize(source) {
        Err(e) => {
            return Err(CompileError::Lexical(e));
        },
        Ok(tokens) => tokens,
    };
    let program = match parse(tokens) {
        Err(e) => {
            return Err(CompileError::Syntax(e));
        },
        Ok(program) => program,
    };
    match check(&program) {
        Err(e) => {
            return Err(CompileError::Type(e));
        },
        Ok(_) => {},
    }
    Ok(emit(&program))
}

} // verus!
