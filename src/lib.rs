//! A terse, right-to-left, stack-based expression language: a tokenizer
//! that turns source text into located tokens, an exact value algebra with
//! symbolic limits, a table of builtin operators with their inverses, and an
//! evaluator that runs the tokens against an operand stack.
pub mod builtins;
pub mod err;
pub mod float;
pub mod formatter;
pub mod laws;
pub mod lexer;
pub mod num;
pub mod parser;
pub mod value;
pub mod vm;
