//! A small compiler from a typed `let` language to JavaScript.
//!
//! A source text is a sequence of statements `let name: type = expression;`
//! over numbers and strings. It goes through four stages: the lexer turns
//! the text into tokens, the parser turns the tokens into a program, the
//! type checker holds each expression against the type its statement
//! declares, and the emitter writes the program out as JavaScript.
//!
//! Each stage is specified by a function on mathematical values (the
//! characters of the text, sequences of tokens, trees), and the code of the
//! stage is proved to compute that function. `pipeline` puts the stages
//! together; `roundtrip` proves that what is emitted reads back.

pub mod ast;
pub mod decimal;
pub mod js_emitter;
pub mod lexer;
pub mod numeric;
pub mod parser;
pub mod pipeline;
pub mod roundtrip;
pub mod text;
pub mod type_checker;
