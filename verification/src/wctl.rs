//! Weighted CTL: formulas over weighted CCS processes, as trees and flattened into arenas.
use vstd::prelude::*;

use crate::numeric::Number;

verus! {

/// A formula of weighted CTL.
#[derive(Debug)]
pub enum Formula<'a> {
    Const(bool),
    And(Box<Formula<'a>>, Box<Formula<'a>>),
    Or(Box<Formula<'a>>, Box<Formula<'a>>),
    UniversalUntil { left: Box<Formula<'a>>, right: Box<Formula<'a>>, bound: Number },
    ExistentialUntil { left: Box<Formula<'a>>, right: Box<Formula<'a>>, bound: Number },
    UniversalFinally { formula: Box<Formula<'a>>, bound: Number },
    ExistentialFinally { formula: Box<Formula<'a>>, bound: Number },
    UniversalNext { formula: Box<Formula<'a>>, bound: Number },
    ExistentialNext { formula: Box<Formula<'a>>, bound: Number },
    RelationalExpr(RelationalExpr<'a>),
    Proposition(&'a str),
}

/// A comparison of two expressions.
#[derive(Debug)]
pub enum RelationalExpr<'a> {
    LessThan(Box<Expr<'a>>, Box<Expr<'a>>),
    LessThanEq(Box<Expr<'a>>, Box<Expr<'a>>),
    GreaterThan(Box<Expr<'a>>, Box<Expr<'a>>),
    GreaterThanEq(Box<Expr<'a>>, Box<Expr<'a>>),
    Eq(Box<Expr<'a>>, Box<Expr<'a>>),
    NotEq(Box<Expr<'a>>, Box<Expr<'a>>),
}

/// An arithmetic expression over the propositions of a state and weights.
#[derive(Debug)]
pub enum Expr<'a> {
    Multiply(Box<Expr<'a>>, Box<Expr<'a>>),
    Add(Box<Expr<'a>>, Box<Expr<'a>>),
    Subtract(Box<Expr<'a>>, Box<Expr<'a>>),
    Divide(Box<Expr<'a>>, Box<Expr<'a>>),
    Inverse(Box<Expr<'a>>),
    Proposition(&'a str),
    Weight(Number),
}

impl<'a> Clone for Expr<'a> {
    fn clone(&self) -> (r: Self)
        ensures
            r == *self,
        decreases self,
    {
        match self {
            Expr::Multiply(a, b) => Expr::Multiply(Box::new((**a).clone()), Box::new((**b).clone())),
            Expr::Add(a, b) => Expr::Add(Box::new((**a).clone()), Box::new((**b).clone())),
            Expr::Subtract(a, b) => Expr::Subtract(Box::new((**a).clone()), Box::new((**b).clone())),
            Expr::Divide(a, b) => Expr::Divide(Box::new((**a).clone()), Box::new((**b).clone())),
            Expr::Inverse(a) => Expr::Inverse(Box::new((**a).clone())),
            Expr::Proposition(p) => Expr::Proposition(p),
            Expr::Weight(w) => Expr::Weight(*w),
        }
    }
}

impl<'a> Clone for RelationalExpr<'a> {
    fn clone(&self) -> (r: Self)
        ensures
            r == *self,
    {
        match self {
            RelationalExpr::LessThan(a, b) => RelationalExpr::LessThan(Box::new((**a).clone()), Box::new((**b).clone())),
            RelationalExpr::LessThanEq(a, b) => RelationalExpr::LessThanEq(Box::new((**a).clone()), Box::new((**b).clone())),
            RelationalExpr::GreaterThan(a, b) => RelationalExpr::GreaterThan(Box::new((**a).clone()), Box::new((**b).clone())),
            RelationalExpr::GreaterThanEq(a, b) => RelationalExpr::GreaterThanEq(Box::new((**a).clone()), Box::new((**b).clone())),
            RelationalExpr::Eq(a, b) => RelationalExpr::Eq(Box::new((**a).clone()), Box::new((**b).clone())),
            RelationalExpr::NotEq(a, b) => RelationalExpr::NotEq(Box::new((**a).clone()), Box::new((**b).clone())),
        }
    }
}

impl<'a> Clone for Formula<'a> {
    fn clone(&self) -> (r: Self)
        ensures
            r == *self,
        decreases self,
    {
        match self {
            Formula::Const(b) => Formula::Const(*b),
            Formula::And(a, b) => Formula::And(Box::new((**a).clone()), Box::new((**b).clone())),
            Formula::Or(a, b) => Formula::Or(Box::new((**a).clone()), Box::new((**b).clone())),
            Formula::UniversalUntil { left, right, bound } => Formula::UniversalUntil {
                left: Box::new((**left).clone()),
                right: Box::new((**right).clone()),
                bound: *bound,
            },
            Formula::ExistentialUntil { left, right, bound } => Formula::ExistentialUntil {
                left: Box::new((**left).clone()),
                right: Box::new((**right).clone()),
                bound: *bound,
            },
            Formula::UniversalFinally { formula, bound } => Formula::UniversalFinally {
                formula: Box::new((**formula).clone()),
                bound: *bound,
            },
            Formula::ExistentialFinally { formula, bound } => Formula::ExistentialFinally {
                formula: Box::new((**formula).clone()),
                bound: *bound,
            },
            Formula::UniversalNext { formula, bound } => Formula::UniversalNext {
                formula: Box::new((**formula).clone()),
                bound: *bound,
            },
            Formula::ExistentialNext { formula, bound } => Formula::ExistentialNext {
                formula: Box::new((**formula).clone()),
                bound: *bound,
            },
            Formula::RelationalExpr(e) => Formula::RelationalExpr(e.clone()),
            Formula::Proposition(p) => Formula::Proposition(p),
        }
    }
}

/// A formula whose subformulas and expressions stand in arenas, found by their keys.
#[derive(Clone, Copy, Debug, PartialEq, Eq, Hash)]
pub enum FlatFormula<'a, FormKey, ExprKey> {
    Const(bool),
    And(FormKey, FormKey),
    Or(FormKey, FormKey),
    UniversalUntil { left: FormKey, right: FormKey, bound: Number },
    SymbolicUniversalUntil { left: FormKey, right: FormKey },
    ExistentialUntil { left: FormKey, right: FormKey, bound: Number },
    SymbolicExistentialUntil { left: FormKey, right: FormKey },
    UniversalFinally { formula: FormKey, bound: Number },
    SymbolicUniversalFinally { formula: FormKey },
    ExistentialFinally { formula: FormKey, bound: Number },
    SymbolicExistentialFinally { formula: FormKey },
    UniversalNext { formula: FormKey, bound: Number },
    ExistentialNext { formula: FormKey, bound: Number },
    RelationalExpr(FlatRelationalExpr<ExprKey>),
    Proposition(&'a str),
}

/// A comparison of two expressions of an arena.
#[derive(Clone, Copy, Debug, PartialEq, Eq, Hash)]
pub enum FlatRelationalExpr<ExprKey> {
    LessThan(ExprKey, ExprKey),
    LessThanEq(ExprKey, ExprKey),
    GreaterThan(ExprKey, ExprKey),
    GreaterThanEq(ExprKey, ExprKey),
    Eq(ExprKey, ExprKey),
    NotEq(ExprKey, ExprKey),
}

/// An expression whose operands stand in an arena.
#[derive(Clone, Copy, Debug, PartialEq, Eq, Hash)]
pub enum FlatExpr<'a, ExprKey> {
    Multiply(ExprKey, ExprKey),
    Add(ExprKey, ExprKey),
    Subtract(ExprKey, ExprKey),
    Divide(ExprKey, ExprKey),
    Inverse(ExprKey),
    Proposition(&'a str),
    Weight(Number),
}

} // verus!
