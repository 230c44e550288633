//! The expression tree.
use crate::token::{Literal, Token};
use vstd::prelude::*;

verus! {

/// Something that walks an expression and gives a `T` for it.
pub trait Visitor<T> {
    fn visit_expr(&mut self, e: &Expr) -> T;
}

/// An expression. Every node owns its operands, so the whole is a tree.
#[derive(Debug, PartialEq)]
pub enum Expr {
    Binary(Box<Expr>, Box<Token>, Box<Expr>),
    Grouping(Box<Expr>),
    Literal(Literal),
    Unary(Box<Token>, Box<Expr>),
    Ternary(Box<Expr>, Box<Expr>, Box<Expr>),
}

impl Clone for Expr {
    fn clone(&self) -> (res: Self)
        ensures
            res == *self,
        decreases self,
    {
        match self {
            Expr::Binary(left, operator, right) => Expr::Binary(
                Box::new((&**left).clone()),
                Box::new((&**operator).clone()),
                Box::new((&**right).clone()),
            ),
            Expr::Grouping(inner) => Expr::Grouping(Box::new((&**inner).clone())),
            Expr::Literal(value) => Expr::Literal(value.clone()),
            Expr::Unary(operator, operand) => Expr::Unary(
                Box::new((&**operator).clone()),
                Box::new((&**operand).clone()),
            ),
            Expr::Ternary(condition, then_branch, else_branch) => Expr::Ternary(
                Box::new((&**condition).clone()),
                Box::new((&**then_branch).clone()),
                Box::new((&**else_branch).clone()),
            ),
        }
    }
}

impl Expr {
    /// How many tokens the expression is written with.
    pub open spec fn width(self) -> nat
        decreases self,
    {
        match self {
            Expr::Binary(left, _, right) => left.width() + 1 + right.width(),
            Expr::Grouping(inner) => 1 + inner.width() + 1,
            Expr::Literal(_) => 1,
            Expr::Unary(_, operand) => 1 + operand.width(),
            Expr::Ternary(condition, then_branch, else_branch) => condition.width() + 1
                + then_branch.width() + 1 + else_branch.width(),
        }
    }

    /// Whether every literal in the expression has a value.
    pub open spec fn valued(self) -> bool
        decreases self,
    {
        match self {
            Expr::Binary(left, _, right) => left.valued() && right.valued(),
            Expr::Grouping(inner) => inner.valued(),
            Expr::Literal(value) => value != Literal::Absent,
            Expr::Unary(_, operand) => operand.valued(),
            Expr::Ternary(condition, then_branch, else_branch) => condition.valued()
                && then_branch.valued() && else_branch.valued(),
        }
    }
}

} // verus!
