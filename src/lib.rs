//! Middle-end of a small expression language: lowering of a typed syntax
//! tree into a labelled three-address IR, a static energy estimate of that
//! IR, and a reference interpreter for it.
pub mod ast;
pub mod input;
pub mod interpreter;
pub mod ir;
pub mod lexer;
pub mod lower;
pub mod text;
