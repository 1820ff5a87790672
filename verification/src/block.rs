//! Elementary blocks: the labelled units out of which statements are built.

use crate::expression::{AExp, BExp, Label, Variable};
use vstd::prelude::*;

verus! {

/// `[x := a]`: assigns the value of `expr` to `var`.
#[derive(Debug, PartialEq, Eq, Hash)]
pub struct AssignmentBlock {
    pub label: Label,
    pub var: Variable,
    pub expr: AExp,
}

/// `[skip]`: does nothing.
#[derive(Debug, PartialEq, Eq, Hash)]
pub struct SkipBlock {
    pub label: Label,
}

/// `[b]`: evaluates a condition; the guard of an `if` or a `while`.
#[derive(Debug, PartialEq, Eq, Hash)]
pub struct TestBlock {
    pub label: Label,
    pub expr: BExp,
}

/// One elementary block of a program.
#[derive(Debug, PartialEq, Eq, Hash)]
pub enum Block {
    Assignment(AssignmentBlock),
    Skip(SkipBlock),
    Test(TestBlock),
}

impl Clone for AssignmentBlock {
    fn clone(&self) -> (r: Self)
        ensures
            r == *self,
    {
        AssignmentBlock { label: self.label, var: self.var, expr: self.expr.clone() }
    }
}

impl Clone for SkipBlock {
    fn clone(&self) -> (r: Self)
        ensures
            r == *self,
    {
        SkipBlock { label: self.label }
    }
}

impl Clone for TestBlock {
    fn clone(&self) -> (r: Self)
        ensures
            r == *self,
    {
        TestBlock { label: self.label, expr: self.expr.clone() }
    }
}

impl Clone for Block {
    fn clone(&self) -> (r: Self)
        ensures
            r == *self,
    {
        match self {
            Block::Assignment(b) => Block::Assignment(b.clone()),
            Block::Skip(b) => Block::Skip(b.clone()),
            Block::Test(b) => Block::Test(b.clone()),
        }
    }
}

impl Block {
    /// The label that the block carries.
    pub open spec fn label(self) -> Label {
        match self {
            Block::Assignment(b) => b.label,
            Block::Skip(b) => b.label,
            Block::Test(b) => b.label,
        }
    }

    /// The same block under another label.
    pub open spec fn with_label(self, label: Label) -> Block {
        match self {
            Block::Assignment(b) => Block::Assignment(
                AssignmentBlock { label, var: b.var, expr: b.expr },
            ),
            Block::Skip(_) => Block::Skip(SkipBlock { label }),
            Block::Test(b) => Block::Test(TestBlock { label, expr: b.expr }),
        }
    }

    /// The block `[var := expr]` under `label`.
    pub open spec fn assignment_of(label: Label, var: Variable, expr: AExp) -> Block {
        Block::Assignment(AssignmentBlock { label, var, expr })
    }

    /// The block `[skip]` under `label`.
    pub open spec fn skip_of(label: Label) -> Block {
        Block::Skip(SkipBlock { label })
    }

    /// The block `[expr]` under `label`.
    pub open spec fn test_of(label: Label, expr: BExp) -> Block {
        Block::Test(TestBlock { label, expr })
    }

    /// The label that the block carries.
    pub fn get_label(&self) -> (r: Label)
        ensures
            r == self.label(),
    {
        match self {
            Block::Assignment(b) => b.label,
            Block::Skip(b) => b.label,
            Block::Test(b) => b.label,
        }
    }

    /// The block `[var := expr]` under `label`.
    pub fn assignment(label: Label, var: Variable, expr: AExp) -> (r: Self)
        ensures
            r == Block::assignment_of(label, var, expr),
    {
        Block::Assignment(AssignmentBlock { label, var, expr })
    }

    /// The block `[skip]` under `label`.
    pub fn skip(label: Label) -> (r: Self)
        ensures
            r == Block::skip_of(label),
    {
        Block::Skip(SkipBlock { label })
    }

    /// The block `[expr]` under `label`.
    pub fn test(label: Label, expr: BExp) -> (r: Self)
        ensures
            r == Block::test_of(label, expr),
    {
        Block::Test(TestBlock { label, expr })
    }

    /// The block under the label `label`, everything else kept.
    pub fn relabelled(self, label: Label) -> (r: Self)
        ensures
            r == self.with_label(label),
    {
        match self {
            Block::Assignment(b) => Block::assignment(label, b.var, b.expr),
            Block::Skip(_) => Block::skip(label),
            Block::Test(b) => Block::test(label, b.expr),
        }
    }
}

} // verus!
