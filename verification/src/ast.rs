//! Syntax tree of the Nord expression language, as the parser produces it.
//! Pure data: the lowering pass in `mir` consumes it.

use vstd::prelude::*;

verus! {

/// Operator vocabulary: arithmetic, comparison, logical, unary and assignment.
#[derive(Debug, Clone, Copy, PartialEq, Eq)]
pub enum Opcode {
    Add,
    Sub,
    Mul,
    Div,
    Mod,
    Equal,
    NotEqual,
    Less,
    LessEqual,
    Greater,
    GreaterEqual,
    And,
    Or,
    Not,
    Neg,
    Assign,
}

/// Leaf values of the syntax tree.
#[derive(Debug, Clone)]
pub enum Atom {
    Num(i64),
    Boolean(bool),
    Identifier(String),
    Text(String),
}

/// Expression tree. The compiled backend lowers only the arithmetic and
/// control-flow subset; the remaining forms (arrays, objects, member and
/// index access, lambdas, calls) are accepted here and rejected during
/// lowering.
#[derive(Debug)]
pub enum Expr {
    Let(String, Box<Expr>),
    IfElse(Box<Expr>, Box<Expr>, Option<Box<Expr>>),
    Constant(Atom),
    Block(Vec<Expr>),
    Call(Box<Expr>, Option<Box<Expr>>),
    Lambda(Option<String>, Box<Expr>),
    Array(Vec<Expr>),
    Object(Vec<(String, Expr)>),
    Index(Box<Expr>, Box<Expr>),
    Member(Box<Expr>, String),
    UnaryOp(Opcode, Box<Expr>),
    BinaryOp(Box<Expr>, Opcode, Box<Expr>),
}

} // verus!
