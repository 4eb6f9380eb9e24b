//! A tree-walking interpreter for the Lox language: scanner, parser,
//! resolver and evaluator, with the numeric semantics of IEEE-754 binary64.
pub mod bignum;
pub mod number;
pub mod expansion;
pub mod rounding;
pub mod text;
pub mod errors;
pub mod scanner;
pub mod environment;
pub mod utils;
pub mod parser;
pub mod resolver;
pub mod interpreter;
pub mod scoping;
