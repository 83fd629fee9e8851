//! The tokens that the front end's scanner produces.
use vstd::prelude::*;

verus! {

/// A token of the source language.
#[derive(Debug, Clone, PartialEq)]
pub enum Token {
    Int(i64),
    If,
    Else,
    While,
    I32,
    I64,
    EqEq,
    BangEq,
    LtEq,
    GtEq,
    Eq,
    Lt,
    Gt,
    Plus,
    Minus,
    Star,
    Slash,
    LParen,
    RParen,
    LBrace,
    RBrace,
    Semicolon,
    Colon,
    Ident(String),
    Whitespace,
}

} // verus!
