//! Builders that put a statement together block by block and hand out the
//! labels in the order in which the blocks can first execute.

use crate::block::{Block, TestBlock};
use crate::expression::{AExp, BExp, Label, Variable};
use crate::statement::{lemma_appended_blocks, Statement};
use vstd::prelude::*;

verus! {

/// Builds a sequence of statements.
#[derive(Clone, Debug)]
pub struct StatementBuilder {
    /// What has been built so far.
    pub contents: Statement,
    /// The label that the next block gets.
    pub next_label: Label,
}

/// Builds the first branch of an `if`, after `StatementBuilder::if_then`.
#[derive(Debug)]
pub struct IfThenBuilder {
    pub test: BExp,
    pub then_builder: StatementBuilder,
    pub parent: StatementBuilder,
}

/// Builds the second branch of an `if`, after `IfThenBuilder::else_`.
#[derive(Debug)]
pub struct ElseBuilder {
    pub if_builder: IfThenBuilder,
    pub else_builder: StatementBuilder,
}

/// Builds the body of a `while`, after `StatementBuilder::while_`.
#[derive(Debug)]
pub struct WhileBuilder {
    pub test: BExp,
    pub while_builder: StatementBuilder,
    pub parent: StatementBuilder,
}

/// The blocks carry the labels `start`, `start + 1`, ... in their order.
pub open spec fn numbered(blocks: Seq<Block>, start: int) -> bool {
    forall|i: int| 0 <= i < blocks.len() ==> #[trigger] blocks[i].label() == start + i
}

/// Blocks numbered up to where other numbered blocks begin make, put
/// together, numbered blocks.
pub proof fn lemma_numbered_concat(a: Seq<Block>, b: Seq<Block>, start: int)
    requires
        numbered(a, start),
        numbered(b, start + a.len()),
    ensures
        numbered(a + b, start),
{
    assert forall|i: int| 0 <= i < (a + b).len() implies #[trigger] (a + b)[i].label() == start
        + i by {
        if i < a.len() {
            assert((a + b)[i] == a[i]);
        } else {
            assert((a + b)[i] == b[i - a.len()]);
        }
    }
}

impl StatementBuilder {
    /// The label of the first block, if the blocks are numbered.
    pub open spec fn first_label(self) -> int {
        self.next_label - self.contents.size()
    }

    /// The blocks built so far carry the labels from `first_label()` up to,
    /// and not including, `next_label`.
    pub open spec fn wf(self) -> bool {
        numbered(self.contents.blocks(), self.first_label())
    }

    /// The builder after a block has been appended.
    pub open spec fn with_atom(self, block: Block) -> StatementBuilder {
        StatementBuilder {
            contents: self.contents.appended(Statement::Atom(block)),
            next_label: (self.next_label + 1) as Label,
        }
    }

    /// A builder that has built nothing, and will label its first block
    /// `first_label`.
    pub fn new(first_label: Label) -> (r: Self)
        ensures
            r == (StatementBuilder { contents: Statement::Empty, next_label: first_label }),
            r.wf(),
    {
        StatementBuilder { contents: Statement::Empty, next_label: first_label }
    }

    /// Appends `[var := expr]` under the next label.
    pub fn assignment(self, var: Variable, expr: AExp) -> (r: Self)
        requires
            self.next_label < usize::MAX,
        ensures
            r == self.with_atom(Block::assignment_of(self.next_label, var, expr)),
            self.wf() ==> r.wf() && r.first_label() == self.first_label(),
    {
        let new_stmt = Statement::Atom(Block::assignment(self.next_label, var, expr));
        proof {
            self.lemma_with_atom(Block::assignment_of(self.next_label, var, expr));
        }
        StatementBuilder {
            contents: append(self.contents, new_stmt),
            next_label: self.next_label + 1,
        }
    }

    /// Appends `[skip]` under the next label.
    pub fn skip(self) -> (r: Self)
        requires
            self.next_label < usize::MAX,
        ensures
            r == self.with_atom(Block::skip_of(self.next_label)),
            self.wf() ==> r.wf() && r.first_label() == self.first_label(),
    {
        let new_stmt = Statement::Atom(Block::skip(self.next_label));
        proof {
            self.lemma_with_atom(Block::skip_of(self.next_label));
        }
        StatementBuilder {
            contents: append(self.contents, new_stmt),
            next_label: self.next_label + 1,
        }
    }

    /// Appends `[expr]` under the next label.
    pub fn test(self, expr: BExp) -> (r: Self)
        requires
            self.next_label < usize::MAX,
        ensures
            r == self.with_atom(Block::test_of(self.next_label, expr)),
            self.wf() ==> r.wf() && r.first_label() == self.first_label(),
    {
        let new_stmt = Statement::Atom(Block::test(self.next_label, expr));
        proof {
            self.lemma_with_atom(Block::test_of(self.next_label, expr));
        }
        StatementBuilder {
            contents: append(self.contents, new_stmt),
            next_label: self.next_label + 1,
        }
    }

    /// Opens an `if` with the guard `test`. The guard takes the next label,
    /// the first branch goes on behind it.
    pub fn if_then(self, test: BExp) -> (r: IfThenBuilder)
        requires
            self.next_label < usize::MAX,
        ensures
            r == (IfThenBuilder {
                test,
                then_builder: StatementBuilder {
                    contents: Statement::Empty,
                    next_label: (self.next_label + 1) as Label,
                },
                parent: self,
            }),
            self.wf() ==> r.wf(),
    {
        IfThenBuilder::new(test, self)
    }

    /// Opens a `while` with the guard `test`. The guard takes the next
    /// label, the body goes on behind it.
    pub fn while_(self, test: BExp) -> (r: WhileBuilder)
        requires
            self.next_label < usize::MAX,
        ensures
            r == (WhileBuilder {
                test,
                while_builder: StatementBuilder {
                    contents: Statement::Empty,
                    next_label: (self.next_label + 1) as Label,
                },
                parent: self,
            }),
            self.wf() ==> r.wf(),
    {
        WhileBuilder::new(test, self)
    }

    /// The statement that has been built.
    pub fn end(self) -> (r: Statement)
        ensures
            r == self.contents,
    {
        self.contents
    }

    /// Appends a statement whose last label is `next_label - 1`.
    pub fn append(self, stmt: Statement, next_label: Label) -> (r: Self)
        ensures
            r == (StatementBuilder { contents: self.contents.appended(stmt), next_label }),
    {
        StatementBuilder { contents: append(self.contents, stmt), next_label }
    }

    proof fn lemma_with_atom(self, block: Block)
        requires
            block.label() == self.next_label,
            self.next_label < usize::MAX,
        ensures
            self.wf() ==> self.with_atom(block).wf() && self.with_atom(block).first_label()
                == self.first_label(),
    {
        lemma_appended_blocks(self.contents, Statement::Atom(block));
        if self.wf() {
            lemma_numbered_concat(self.contents.blocks(), seq![block], self.first_label());
        }
    }
}

impl IfThenBuilder {
    /// The guard has the label that follows the blocks before the `if`, and
    /// the first branch is numbered from the label behind it.
    pub open spec fn wf(self) -> bool {
        &&& self.parent.wf()
        &&& self.parent.next_label < usize::MAX
        &&& self.then_builder.wf()
        &&& self.then_builder.first_label() == self.parent.next_label + 1
    }

    /// Opens an `if` with the guard `test` behind what `super_builder` has
    /// built.
    pub fn new(test: BExp, super_builder: StatementBuilder) -> (r: Self)
        requires
            super_builder.next_label < usize::MAX,
        ensures
            r == (IfThenBuilder {
                test,
                then_builder: StatementBuilder {
                    contents: Statement::Empty,
                    next_label: (super_builder.next_label + 1) as Label,
                },
                parent: super_builder,
            }),
            super_builder.wf() ==> r.wf(),
    {
        let first = super_builder.next_label + 1;
        IfThenBuilder { test, then_builder: StatementBuilder::new(first), parent: super_builder }
    }

    /// Appends `[var := expr]` to the first branch.
    pub fn assignment(self, var: Variable, expr: AExp) -> (r: Self)
        requires
            self.then_builder.next_label < usize::MAX,
        ensures
            r == (IfThenBuilder {
                then_builder: self.then_builder.with_atom(
                    Block::assignment_of(self.then_builder.next_label, var, expr),
                ),
                ..self
            }),
            self.wf() ==> r.wf(),
    {
        IfThenBuilder {
            test: self.test,
            then_builder: self.then_builder.assignment(var, expr),
            parent: self.parent,
        }
    }

    /// Appends `[skip]` to the first branch.
    pub fn skip(self) -> (r: Self)
        requires
            self.then_builder.next_label < usize::MAX,
        ensures
            r == (IfThenBuilder {
                then_builder: self.then_builder.with_atom(
                    Block::skip_of(self.then_builder.next_label),
                ),
                ..self
            }),
            self.wf() ==> r.wf(),
    {
        IfThenBuilder {
            test: self.test,
            then_builder: self.then_builder.skip(),
            parent: self.parent,
        }
    }

    /// Appends `[expr]` to the first branch.
    pub fn test(self, expr: BExp) -> (r: Self)
        requires
            self.then_builder.next_label < usize::MAX,
        ensures
            r == (IfThenBuilder {
                then_builder: self.then_builder.with_atom(
                    Block::test_of(self.then_builder.next_label, expr),
                ),
                ..self
            }),
            self.wf() ==> r.wf(),
    {
        IfThenBuilder {
            test: self.test,
            then_builder: self.then_builder.test(expr),
            parent: self.parent,
        }
    }

    /// Closes the first branch and opens the second, which goes on with the
    /// labels where the first has stopped.
    pub fn else_(self) -> (r: ElseBuilder)
        ensures
            r == (ElseBuilder {
                if_builder: self,
                else_builder: StatementBuilder {
                    contents: Statement::Empty,
                    next_label: self.then_builder.next_label,
                },
            }),
            self.wf() ==> r.wf(),
    {
        ElseBuilder::new(self)
    }
}

impl ElseBuilder {
    /// The second branch is numbered from where the first has stopped.
    pub open spec fn wf(self) -> bool {
        &&& self.if_builder.wf()
        &&& self.else_builder.wf()
        &&& self.else_builder.first_label() == self.if_builder.then_builder.next_label
    }

    /// The `if` that `end` appends.
    pub open spec fn built(self) -> Statement {
        Statement::IfThenElse(
            TestBlock { label: self.if_builder.parent.next_label, expr: self.if_builder.test },
            Box::new(self.if_builder.then_builder.contents),
            Box::new(self.else_builder.contents),
        )
    }

    /// Opens the second branch of the `if` of `if_builder`.
    pub fn new(if_builder: IfThenBuilder) -> (r: Self)
        ensures
            r == (ElseBuilder {
                if_builder,
                else_builder: StatementBuilder {
                    contents: Statement::Empty,
                    next_label: if_builder.then_builder.next_label,
                },
            }),
            if_builder.wf() ==> r.wf(),
    {
        let first = if_builder.then_builder.next_label;
        ElseBuilder { if_builder, else_builder: StatementBuilder::new(first) }
    }

    /// Appends `[var := expr]` to the second branch.
    pub fn assignment(self, var: Variable, expr: AExp) -> (r: Self)
        requires
            self.else_builder.next_label < usize::MAX,
        ensures
            r == (ElseBuilder {
                else_builder: self.else_builder.with_atom(
                    Block::assignment_of(self.else_builder.next_label, var, expr),
                ),
                ..self
            }),
            self.wf() ==> r.wf(),
    {
        ElseBuilder {
            if_builder: self.if_builder,
            else_builder: self.else_builder.assignment(var, expr),
        }
    }

    /// Appends `[skip]` to the second branch.
    pub fn skip(self) -> (r: Self)
        requires
            self.else_builder.next_label < usize::MAX,
        ensures
            r == (ElseBuilder {
                else_builder: self.else_builder.with_atom(
                    Block::skip_of(self.else_builder.next_label),
                ),
                ..self
            }),
            self.wf() ==> r.wf(),
    {
        ElseBuilder { if_builder: self.if_builder, else_builder: self.else_builder.skip() }
    }

    /// Appends `[expr]` to the second branch.
    pub fn test(self, expr: BExp) -> (r: Self)
        requires
            self.else_builder.next_label < usize::MAX,
        ensures
            r == (ElseBuilder {
                else_builder: self.else_builder.with_atom(
                    Block::test_of(self.else_builder.next_label, expr),
                ),
                ..self
            }),
            self.wf() ==> r.wf(),
    {
        ElseBuilder { if_builder: self.if_builder, else_builder: self.else_builder.test(expr) }
    }

    /// Closes the `if` and appends it to what was built before it.
    pub fn end(self) -> (r: StatementBuilder)
        ensures
            r == (StatementBuilder {
                contents: self.if_builder.parent.contents.appended(self.built()),
                next_label: self.else_builder.next_label,
            }),
            self.wf() ==> r.wf() && r.first_label() == self.if_builder.parent.first_label(),
    {
        let test_label = self.if_builder.parent.next_label;
        let next_label = self.else_builder.next_label;
        proof {
            let parent = self.if_builder.parent;
            let then_blocks = self.if_builder.then_builder.contents.blocks();
            let else_blocks = self.else_builder.contents.blocks();
            lemma_appended_blocks(parent.contents, self.built());
            if self.wf() {
                let guard = seq![Block::Test(
                    TestBlock { label: test_label, expr: self.if_builder.test },
                )];
                lemma_numbered_concat(guard, then_blocks, test_label as int);
                lemma_numbered_concat(guard + then_blocks, else_blocks, test_label as int);
                lemma_numbered_concat(
                    parent.contents.blocks(),
                    self.built().blocks(),
                    parent.first_label(),
                );
            }
        }
        self.if_builder.parent.append(
            Statement::IfThenElse(
                TestBlock { label: test_label, expr: self.if_builder.test },
                Box::new(self.if_builder.then_builder.end()),
                Box::new(self.else_builder.end()),
            ),
            next_label,
        )
    }
}

impl WhileBuilder {
    /// The guard has the label that follows the blocks before the `while`,
    /// and the body is numbered from the label behind it.
    pub open spec fn wf(self) -> bool {
        &&& self.parent.wf()
        &&& self.parent.next_label < usize::MAX
        &&& self.while_builder.wf()
        &&& self.while_builder.first_label() == self.parent.next_label + 1
    }

    /// The `while` that `end` appends.
    pub open spec fn built(self) -> Statement {
        Statement::While(
            TestBlock { label: self.parent.next_label, expr: self.test },
            Box::new(self.while_builder.contents),
        )
    }

    /// Opens a `while` with the guard `test` behind what `super_builder`
    /// has built.
    pub fn new(test: BExp, super_builder: StatementBuilder) -> (r: Self)
        requires
            super_builder.next_label < usize::MAX,
        ensures
            r == (WhileBuilder {
                test,
                while_builder: StatementBuilder {
                    contents: Statement::Empty,
                    next_label: (super_builder.next_label + 1) as Label,
                },
                parent: super_builder,
            }),
            super_builder.wf() ==> r.wf(),
    {
        let first = super_builder.next_label + 1;
        WhileBuilder { test, while_builder: StatementBuilder::new(first), parent: super_builder }
    }

    /// Appends `[var := expr]` to the body.
    pub fn assignment(self, var: Variable, expr: AExp) -> (r: Self)
        requires
            self.while_builder.next_label < usize::MAX,
        ensures
            r == (WhileBuilder {
                while_builder: self.while_builder.with_atom(
                    Block::assignment_of(self.while_builder.next_label, var, expr),
                ),
                ..self
            }),
            self.wf() ==> r.wf(),
    {
        WhileBuilder {
            test: self.test,
            while_builder: self.while_builder.assignment(var, expr),
            parent: self.parent,
        }
    }

    /// Appends `[skip]` to the body.
    pub fn skip(self) -> (r: Self)
        requires
            self.while_builder.next_label < usize::MAX,
        ensures
            r == (WhileBuilder {
                while_builder: self.while_builder.with_atom(
                    Block::skip_of(self.while_builder.next_label),
                ),
                ..self
            }),
            self.wf() ==> r.wf(),
    {
        WhileBuilder {
            test: self.test,
            while_builder: self.while_builder.skip(),
            parent: self.parent,
        }
    }

    /// Appends `[expr]` to the body.
    pub fn test(self, expr: BExp) -> (r: Self)
        requires
            self.while_builder.next_label < usize::MAX,
        ensures
            r == (WhileBuilder {
                while_builder: self.while_builder.with_atom(
                    Block::test_of(self.while_builder.next_label, expr),
                ),
                ..self
            }),
            self.wf() ==> r.wf(),
    {
        WhileBuilder {
            test: self.test,
            while_builder: self.while_builder.test(expr),
            parent: self.parent,
        }
    }

    /// Closes the `while` and appends it to what was built before it.
    pub fn end(self) -> (r: StatementBuilder)
        ensures
            r == (StatementBuilder {
                contents: self.parent.contents.appended(self.built()),
                next_label: self.while_builder.next_label,
            }),
            self.wf() ==> r.wf() && r.first_label() == self.parent.first_label(),
    {
        let test_label = self.parent.next_label;
        let next_label = self.while_builder.next_label;
        proof {
            lemma_appended_blocks(self.parent.contents, self.built());
            if self.wf() {
                let guard = seq![Block::Test(TestBlock { label: test_label, expr: self.test })];
                lemma_numbered_concat(guard, self.while_builder.contents.blocks(), test_label as int);
                lemma_numbered_concat(
                    self.parent.contents.blocks(),
                    self.built().blocks(),
                    self.parent.first_label(),
                );
            }
        }
        self.parent.append(
            Statement::While(
                TestBlock { label: test_label, expr: self.test },
                Box::new(self.while_builder.end()),
            ),
            next_label,
        )
    }
}

/// Puts `next` behind `stmt`.
pub fn append(stmt: Statement, next: Statement) -> (r: Statement)
    ensures
        r == stmt.appended(next),
{
    stmt.append(next)
}

/// A complete statement that a builder has numbered is labelled from the
/// builder's first label on, so that making it a program changes no label
/// if that first label is 1.
pub proof fn lemma_built_is_labelled(b: StatementBuilder)
    requires
        b.wf(),
        b.contents.is_complete(),
    ensures
        b.contents.labelled_from(b.first_label()),
        b.first_label() == 1 ==> b.contents.relabelled(1) == b.contents,
{
    if b.first_label() == 1 {
        crate::statement::lemma_relabelled_fixed(b.contents, 1);
    }
}

} // verus!
