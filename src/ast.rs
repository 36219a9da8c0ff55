use vstd::prelude::*;
use crate::token::{Literal, Token};

verus! {

/// Statement nodes. A program is an ordered sequence of them.
#[derive(Debug)]
pub enum Stmt {
    Block(Vec<Stmt>),
    Expr(Box<Expr>),
    Print(Box<Expr>),
    Var(Token, Box<Option<Expr>>),
    If(Box<Expr>, Box<Stmt>, Option<Box<Stmt>>),
    While(Box<Expr>, Box<Stmt>),
}

/// Expression nodes; each compound node owns its sub-expressions.
#[derive(Debug)]
pub enum Expr {
    Literal(Literal),
    Assignment(Token, Box<Expr>),
    Binary(Box<Expr>, Token, Box<Expr>),
    Logical(Box<Expr>, Token, Box<Expr>),
    Unary(Token, Box<Expr>),
    Grouping(Box<Expr>),
    Variable(Token),
}

} // verus!
