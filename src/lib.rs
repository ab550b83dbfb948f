//! A front end for an eight-instruction tape language: a lexer, a code
//! generator that resolves loop brackets into control-flow blocks, and an
//! interpreter for the generated blocks.

pub mod lexer;
pub mod ir;
pub mod loops;
pub mod interp;
