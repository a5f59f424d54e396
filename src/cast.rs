//! The syntax tree of the C-like source dialect handled by the front end.
use vstd::prelude::*;

verus! {

/// A value type of the dialect.
#[derive(Debug, PartialEq, Eq)]
pub enum Type {
    Char,
    Int,
    /// Return type and parameter types.
    Fn(Box<Type>, Vec<Type>),
}

/// An operand: a literal, a name, or an indexed array.
#[derive(Debug, PartialEq, Eq)]
pub enum Atom<'src> {
    Num(u32),
    Var(&'src str),
    Array(Box<Self>, Box<Expr<'src>>),
}

/// An expression.
#[derive(Debug, PartialEq, Eq)]
pub enum Expr<'src> {
    Atom(Atom<'src>),
    Neg(Box<Self>),
    Add(Box<Self>, Box<Self>),
    Mul(Box<Self>, Box<Self>),
    Lt(Box<Self>, Box<Self>),
    Gt(Box<Self>, Box<Self>),
    Eq(Box<Self>, Box<Self>),
    Inc(Box<Self>),
    Dec(Box<Self>),
    Call(Box<Self>, Vec<Self>),
    Array(Box<Self>, Box<Self>),
    Assignment(Box<Self>, Box<Self>),
}

/// A statement inside a function body.
#[derive(Debug, PartialEq, Eq)]
pub enum LStmt<'src> {
    /// Type, name, array size (`Some(None)` for `[]`), initialiser.
    VarDec(Type, &'src str, Option<Option<Expr<'src>>>, Option<Expr<'src>>),
    While(Expr<'src>, Vec<Self>),
    /// The `if` branch, the `else if` branches, and the `else` branch.
    Ifs((Expr<'src>, Vec<Self>), Vec<(Expr<'src>, Vec<Self>)>, Option<Vec<Self>>),
    /// Initialiser, condition, step, body.
    For(Option<Expr<'src>>, Option<Expr<'src>>, Option<Expr<'src>>, Vec<Self>),
    /// Type, name, parameters, body.
    FuncDec(Type, &'src str, Vec<(Type, &'src str, Option<Option<Expr<'src>>>)>, Vec<Self>),
    Expr(Expr<'src>),
}

/// A top-level declaration.
#[derive(Debug, PartialEq, Eq)]
pub enum GStmt<'src> {
    VarDec(Type, &'src str, Option<Option<Expr<'src>>>, Option<Expr<'src>>),
    FuncDec(
        Type,
        &'src str,
        Vec<(Type, &'src str, Option<Option<Expr<'src>>>)>,
        Vec<LStmt<'src>>,
    ),
}

} // verus!
