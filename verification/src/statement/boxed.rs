//! Statements in a box, ready to become the part of a larger one.

use crate::block::{Block, TestBlock};
use crate::expression::{AExp, BExp, Label, Variable};
use crate::statement::Statement;
use vstd::prelude::*;

verus! {

/// `[var := expr]` under `label`.
pub fn assignment(label: Label, var: Variable, expr: AExp) -> (r: Box<Statement>)
    ensures
        *r == Statement::Atom(Block::assignment_of(label, var, expr)),
{
    Box::new(Statement::Atom(Block::assignment(label, var, expr)))
}

/// `[skip]` under `label`.
pub fn skip(label: Label) -> (r: Box<Statement>)
    ensures
        *r == Statement::Atom(Block::skip_of(label)),
{
    Box::new(Statement::Atom(Block::skip(label)))
}

/// `[expr]` under `label`.
pub fn test(label: Label, expr: BExp) -> (r: Box<Statement>)
    ensures
        *r == Statement::Atom(Block::test_of(label, expr)),
{
    Box::new(Statement::Atom(Block::test(label, expr)))
}

/// `stmt1; stmt2`.
pub fn composition(stmt1: Box<Statement>, stmt2: Box<Statement>) -> (r: Box<Statement>)
    ensures
        *r == Statement::Sequence(stmt1, stmt2),
{
    Box::new(Statement::Sequence(stmt1, stmt2))
}

/// `if test then stmt1 else stmt2`.
pub fn if_then_else(test: TestBlock, stmt1: Box<Statement>, stmt2: Box<Statement>) -> (r: Box<
    Statement,
>)
    ensures
        *r == Statement::IfThenElse(test, stmt1, stmt2),
{
    Box::new(Statement::IfThenElse(test, stmt1, stmt2))
}

/// `while test do stmt1`.
pub fn while_(test: TestBlock, stmt1: Box<Statement>) -> (r: Box<Statement>)
    ensures
        *r == Statement::While(test, stmt1),
{
    Box::new(Statement::While(test, stmt1))
}

} // verus!
