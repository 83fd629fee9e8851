//! The typed syntax tree handed over by the front end.
use vstd::prelude::*;

verus! {

/// Width tag of an integer value.
#[derive(Debug, Clone, Copy, PartialEq, Eq, Structural)]
pub enum Type {
    I32,
    I64,
}

/// Comparison operators of the source language.
#[derive(Debug, Clone, Copy, PartialEq, Eq, Structural)]
pub enum CmpOp {
    Eq,
    Ne,
    Lt,
    Le,
    Gt,
    Ge,
}

/// An expression or statement of the source language.
#[derive(Debug)]
pub enum Expr {
    Int(i64, Type),
    Var(String, Type),
    Assign(String, Box<Expr>, Type),
    Add(Box<Expr>, Box<Expr>),
    Sub(Box<Expr>, Box<Expr>),
    Mul(Box<Expr>, Box<Expr>),
    Div(Box<Expr>, Box<Expr>),
    Cmp(CmpOp, Box<Expr>, Box<Expr>),
    Read(String, Type),
    Block(Vec<Expr>),
    IfElse { cond: Box<Expr>, then_branch: Vec<Expr>, else_branch: Option<Vec<Expr>> },
    While { cond: Box<Expr>, body: Vec<Expr> },
}

} // verus!
