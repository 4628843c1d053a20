//! A minimal interactive command/expression language: a line of text is
//! parsed into a syntax tree and evaluated to a value. The language has
//! unsigned integer and string literals, arithmetic over unsigned 64-bit
//! integers, variable binding in a single flat environment, conditional
//! branching, and invocation of external processes whose captured output
//! becomes a string value. The process call itself is supplied by the caller
//! as a function value; everything else is verified here.

pub mod ast;
pub mod interp;
pub mod parse;
