//! The expression abstract syntax tree.
//!
//! A closed family of variants consumed by exhaustive pattern matching.
//! Every compound variant exclusively owns its child expressions and the
//! tokens it references: parse results are immutable trees with no sharing
//! and no cycles.

use vstd::prelude::*;

use crate::scanner::token::literal::{Literal, LiteralV};
use crate::scanner::token::{Token, TokenV};

verus! {

/// Mathematical model of an [`Expression`] tree.
pub enum ExprV {
    Literal(LiteralV),
    Grouping(Box<ExprV>),
    Unary { operator: TokenV, right: Box<ExprV> },
    Binary { left: Box<ExprV>, operator: TokenV, right: Box<ExprV> },
    Logical { left: Box<ExprV>, operator: TokenV, right: Box<ExprV> },
    Variable { name: TokenV },
    Assign { name: TokenV, value: Box<ExprV> },
    Get { object: Box<ExprV>, name: TokenV },
    SetProperty { object: Box<ExprV>, name: TokenV, value: Box<ExprV> },
    Call { callee: Box<ExprV>, paren: TokenV, arguments: Seq<ExprV> },
    Super { keyword: TokenV, method: TokenV },
    This { keyword: TokenV },
}

/// An expression: a literal value, a parenthesized grouping, a prefix
/// operator application, a binary or logical operator application, a
/// variable reference or assignment, a property access or assignment, a
/// call, or one of the `super`/`this` keywords.
#[derive(Debug, PartialEq)]
pub enum Expression {
    Literal(Literal),
    Grouping(Box<Expression>),
    Unary { operator: Token, right: Box<Expression> },
    Binary { left: Box<Expression>, operator: Token, right: Box<Expression> },
    Logical { left: Box<Expression>, operator: Token, right: Box<Expression> },
    Variable { name: Token },
    Assign { name: Token, value: Box<Expression> },
    Get { object: Box<Expression>, name: Token },
    SetProperty { object: Box<Expression>, name: Token, value: Box<Expression> },
    Call { callee: Box<Expression>, paren: Token, arguments: Vec<Expression> },
    Super { keyword: Token, method: Token },
    This { keyword: Token },
}

/// The model of an expression tree.
pub open spec fn expr_view(e: Expression) -> ExprV
    decreases e,
{
    match e {
        Expression::Literal(l) => ExprV::Literal(l@),
        Expression::Grouping(inner) => ExprV::Grouping(Box::new(expr_view(*inner))),
        Expression::Unary { operator, right } => ExprV::Unary {
            operator: operator@,
            right: Box::new(expr_view(*right)),
        },
        Expression::Binary { left, operator, right } => ExprV::Binary {
            left: Box::new(expr_view(*left)),
            operator: operator@,
            right: Box::new(expr_view(*right)),
        },
        Expression::Logical { left, operator, right } => ExprV::Logical {
            left: Box::new(expr_view(*left)),
            operator: operator@,
            right: Box::new(expr_view(*right)),
        },
        Expression::Variable { name } => ExprV::Variable { name: name@ },
        Expression::Assign { name, value } => ExprV::Assign {
            name: name@,
            value: Box::new(expr_view(*value)),
        },
        Expression::Get { object, name } => ExprV::Get {
            object: Box::new(expr_view(*object)),
            name: name@,
        },
        Expression::SetProperty { object, name, value } => ExprV::SetProperty {
            object: Box::new(expr_view(*object)),
            name: name@,
            value: Box::new(expr_view(*value)),
        },
        Expression::Call { callee, paren, arguments } => ExprV::Call {
            callee: Box::new(expr_view(*callee)),
            paren: paren@,
            arguments: exprs_view(arguments@),
        },
        Expression::Super { keyword, method } => ExprV::Super {
            keyword: keyword@,
            method: method@,
        },
        Expression::This { keyword } => ExprV::This { keyword: keyword@ },
    }
}

/// The models of a sequence of expressions, in order.
pub open spec fn exprs_view(es: Seq<Expression>) -> Seq<ExprV>
    decreases es,
{
    if es.len() == 0 {
        Seq::<ExprV>::empty()
    } else {
        exprs_view(es.drop_last()).push(expr_view(es.last()))
    }
}

impl View for Expression {
    type V = ExprV;

    open spec fn view(&self) -> ExprV {
        expr_view(*self)
    }
}

} // verus!
