//! Front end of an assembler for a small line-oriented assembly language:
//! a scanner, a literal evaluator and a recursive-descent parser, each with
//! a functional specification that the executable code is proved against.

pub mod report;
pub mod literal;
pub mod token;
pub mod lexer;
pub mod stmt;
pub mod grammar;
pub mod parser;
pub mod render;
pub mod laws;
