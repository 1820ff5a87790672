//! A builder with nested scopes: blocks are appended to the innermost open
//! scope, `if` and `while` scopes are opened and closed, and every block
//! gets the next label at the moment it is added.

use crate::block::{Block, TestBlock};
use crate::expression::{AExp, BExp, Label, Variable};
use crate::statement::builder::{lemma_numbered_concat, numbered};
use crate::statement::{lemma_appended_blocks, Statement};
use vstd::prelude::*;

verus! {

/// What an open scope is.
#[derive(Debug, PartialEq, Eq, Clone, Copy)]
pub enum ScopeKind {
    /// The first branch of an `if`.
    Then,
    /// The second branch of an `if`.
    Else,
    /// The body of a `while`.
    While,
}

/// A scope that has been opened and not yet closed.
#[derive(Debug)]
pub struct Scope {
    pub kind: ScopeKind,
    /// The guard, under its label.
    pub test: TestBlock,
    /// In the second branch of an `if`: the first branch. `Empty` otherwise.
    pub first: Statement,
    /// What has been built in this scope so far.
    pub contents: Statement,
}

/// Builds a statement through scopes that open and close.
#[derive(Debug)]
pub struct ScopedBuilder {
    /// What has been built outside every scope.
    pub root: Statement,
    /// The open scopes, the innermost last.
    pub open: Vec<Scope>,
    /// The label that the next block or guard gets.
    pub next_label: Label,
}

/// A use of the builder that the scopes do not allow.
#[derive(Debug, PartialEq, Eq, Clone, Copy)]
pub enum BuilderError {
    /// `else_` where the innermost open scope is not the first branch of
    /// an `if`.
    ElseWithoutIf,
    /// `end_if` where the innermost open scope is not a branch of an `if`.
    NoOpenIf,
    /// `end_while` where the innermost open scope is not the body of a
    /// `while`.
    NoOpenWhile,
    /// `end` while a scope is open.
    UnclosedScope,
}

/// The state of a `ScopedBuilder`.
pub struct BuilderState {
    pub root: Statement,
    pub open: Seq<Scope>,
    pub next_label: Label,
}

impl View for ScopedBuilder {
    type V = BuilderState;

    open spec fn view(&self) -> BuilderState {
        BuilderState { root: self.root, open: self.open@, next_label: self.next_label }
    }
}

impl Scope {
    /// The statement that the scope becomes when it is closed. An `if`
    /// that is closed in its first branch has an empty second branch.
    pub open spec fn closed(self) -> Statement {
        match self.kind {
            ScopeKind::Then => Statement::IfThenElse(
                self.test,
                Box::new(self.contents),
                Box::new(Statement::Empty),
            ),
            ScopeKind::Else => Statement::IfThenElse(
                self.test,
                Box::new(self.first),
                Box::new(self.contents),
            ),
            ScopeKind::While => Statement::While(self.test, Box::new(self.contents)),
        }
    }

    /// The blocks of the scope: the guard, then what has been built.
    pub open spec fn blocks(self) -> Seq<Block> {
        seq![Block::Test(self.test)] + self.first.blocks() + self.contents.blocks()
    }
}

/// The blocks of open scopes, the outermost first.
pub open spec fn open_blocks(open: Seq<Scope>) -> Seq<Block>
    decreases open.len(),
{
    if open.len() == 0 {
        Seq::empty()
    } else {
        open_blocks(open.drop_last()) + open.last().blocks()
    }
}

impl BuilderState {
    /// All blocks built so far, in the order in which they were added.
    pub open spec fn blocks(self) -> Seq<Block> {
        self.root.blocks() + open_blocks(self.open)
    }

    /// The label that the first block got, if the blocks are numbered.
    pub open spec fn first_label(self) -> int {
        self.next_label - self.blocks().len()
    }

    /// The blocks carry the labels from `first_label()` up to, and not
    /// including, `next_label`, in the order in which they were added.
    pub open spec fn wf(self) -> bool {
        &&& numbered(self.blocks(), self.first_label())
        &&& forall|i: int|
            0 <= i < self.open.len() && !((#[trigger] self.open[i]).kind is Else)
                ==> self.open[i].first == Statement::Empty
    }

    /// The state after `stmt` has been appended to the innermost open
    /// scope, or to the root where no scope is open.
    pub open spec fn appended(self, stmt: Statement) -> BuilderState {
        if self.open.len() == 0 {
            BuilderState { root: self.root.appended(stmt), ..self }
        } else {
            let top = self.open.last();
            BuilderState {
                open: self.open.drop_last().push(
                    Scope { contents: top.contents.appended(stmt), ..top },
                ),
                ..self
            }
        }
    }

    /// The state after `block` has been appended and its label used up.
    pub open spec fn with_atom(self, block: Block) -> BuilderState {
        BuilderState {
            next_label: (self.next_label + 1) as Label,
            ..self.appended(Statement::Atom(block))
        }
    }

    /// The state after a scope of `kind` has been opened with the guard
    /// `test`, under the next label.
    pub open spec fn opened(self, kind: ScopeKind, test: BExp) -> BuilderState {
        BuilderState {
            open: self.open.push(
                Scope {
                    kind,
                    test: TestBlock { label: self.next_label, expr: test },
                    first: Statement::Empty,
                    contents: Statement::Empty,
                },
            ),
            next_label: (self.next_label + 1) as Label,
            ..self
        }
    }

    /// The state after the innermost scope has been closed.
    pub open spec fn closed(self) -> BuilderState {
        BuilderState { open: self.open.drop_last(), ..self }.appended(self.open.last().closed())
    }

    /// The state after the first branch of the innermost `if` has given
    /// way to the second.
    pub open spec fn switched(self) -> BuilderState {
        let top = self.open.last();
        BuilderState {
            open: self.open.drop_last().push(
                Scope {
                    kind: ScopeKind::Else,
                    test: top.test,
                    first: top.contents,
                    contents: Statement::Empty,
                },
            ),
            ..self
        }
    }

    /// The innermost open scope is of kind `kind`.
    pub open spec fn innermost_is(self, kind: ScopeKind) -> bool {
        self.open.len() > 0 && self.open.last().kind == kind
    }
}

/// Appending a statement adds its blocks behind all others.
pub proof fn lemma_appended_state(s: BuilderState, stmt: Statement)
    ensures
        s.appended(stmt).blocks() == s.blocks() + stmt.blocks(),
        s.appended(stmt).next_label == s.next_label,
        forall|i: int|
            0 <= i < s.open.len() ==> (#[trigger] s.appended(stmt).open[i]).kind == s.open[i].kind
                && s.appended(stmt).open[i].first == s.open[i].first,
        s.appended(stmt).open.len() == s.open.len(),
{
    if s.open.len() == 0 {
        lemma_appended_blocks(s.root, stmt);
        assert(s.appended(stmt).blocks() =~= s.blocks() + stmt.blocks());
    } else {
        let top = s.open.last();
        let top2 = Scope { contents: top.contents.appended(stmt), ..top };
        let open2 = s.open.drop_last().push(top2);
        lemma_appended_blocks(top.contents, stmt);
        assert(open2.drop_last() =~= s.open.drop_last());
        assert(open2.last() == top2);
        assert(top2.blocks() =~= top.blocks() + stmt.blocks());
        assert(s.appended(stmt).blocks() =~= s.blocks() + stmt.blocks());
    }
}

/// A numbered state stays numbered when a block is added under the next
/// label.
pub proof fn lemma_with_atom_wf(s: BuilderState, block: Block)
    requires
        s.wf(),
        block.label() == s.next_label,
        s.next_label < usize::MAX,
    ensures
        s.with_atom(block).wf(),
        s.with_atom(block).first_label() == s.first_label(),
{
    lemma_appended_state(s, Statement::Atom(block));
    lemma_numbered_concat(s.blocks(), seq![block], s.first_label());
}

/// A numbered state stays numbered when a scope is opened.
pub proof fn lemma_opened_wf(s: BuilderState, kind: ScopeKind, test: BExp)
    requires
        s.wf(),
        s.next_label < usize::MAX,
    ensures
        s.opened(kind, test).wf(),
        s.opened(kind, test).first_label() == s.first_label(),
{
    let r = s.opened(kind, test);
    let guard = Block::Test(TestBlock { label: s.next_label, expr: test });
    assert(r.open.drop_last() =~= s.open);
    assert(r.open.last().blocks() =~= seq![guard]);
    assert(r.blocks() =~= s.blocks() + seq![guard]);
    lemma_numbered_concat(s.blocks(), seq![guard], s.first_label());
}

/// A numbered state stays numbered when the innermost scope is closed.
pub proof fn lemma_closed_wf(s: BuilderState)
    requires
        s.wf(),
        s.open.len() > 0,
    ensures
        s.closed().wf(),
        s.closed().blocks() == s.blocks(),
        s.closed().first_label() == s.first_label(),
{
    let top = s.open.last();
    let rest = BuilderState { open: s.open.drop_last(), ..s };
    lemma_appended_state(rest, top.closed());
    assert(top.closed().blocks() =~= top.blocks()) by {
        assert(!(s.open[s.open.len() - 1].kind is Else) ==> top.first == Statement::Empty);
    }
    assert(s.closed().blocks() =~= s.blocks());
    assert forall|i: int|
        0 <= i < s.closed().open.len() && !((#[trigger] s.closed().open[i]).kind is Else) implies
        s.closed().open[i].first == Statement::Empty by {
        assert(rest.open[i] == s.open[i]);
    }
}

/// A numbered state stays numbered when the second branch of an `if`
/// begins.
pub proof fn lemma_switched_wf(s: BuilderState)
    requires
        s.wf(),
        s.innermost_is(ScopeKind::Then),
    ensures
        s.switched().wf(),
        s.switched().blocks() == s.blocks(),
        s.switched().first_label() == s.first_label(),
{
    let top = s.open.last();
    let r = s.switched();
    assert(r.open.drop_last() =~= s.open.drop_last());
    assert(top.first == Statement::Empty) by {
        assert(!(s.open[s.open.len() - 1].kind is Else));
    }
    assert(r.open.last().blocks() =~= top.blocks());
    assert(r.blocks() =~= s.blocks());
    assert forall|i: int|
        0 <= i < r.open.len() && !((#[trigger] r.open[i]).kind is Else) implies r.open[i].first
        == Statement::Empty by {
        assert(r.open[i] == s.open[i]);
    }
}

impl ScopedBuilder {
    /// A builder that has built nothing, and will label its first block
    /// `first_label`.
    pub fn new(first_label: Label) -> (r: Self)
        ensures
            r@ == (BuilderState {
                root: Statement::Empty,
                open: Seq::empty(),
                next_label: first_label,
            }),
            r@.wf(),
            r@.first_label() == first_label,
    {
        ScopedBuilder { root: Statement::Empty, open: Vec::new(), next_label: first_label }
    }

    /// Appends `stmt` to the innermost open scope.
    fn push_stmt(self, stmt: Statement) -> (r: Self)
        ensures
            r@ == self@.appended(stmt),
    {
        let ScopedBuilder { root, mut open, next_label } = self;
        match open.pop() {
            None => ScopedBuilder { root: root.append(stmt), open, next_label },
            Some(top) => {
                let Scope { kind, test, first, contents } = top;
                open.push(Scope { kind, test, first, contents: contents.append(stmt) });
                assert(open@ =~= self.open@.drop_last().push(
                    Scope { contents: top.contents.appended(stmt), ..top },
                ));
                ScopedBuilder { root, open, next_label }
            },
        }
    }

    /// Appends `block`, which carries the next label.
    fn push_atom(self, block: Block) -> (r: Self)
        requires
            self.next_label < usize::MAX,
            block.label() == self.next_label,
        ensures
            r@ == self@.with_atom(block),
            self@.wf() ==> r@.wf() && r@.first_label() == self@.first_label(),
    {
        proof {
            if self@.wf() {
                lemma_with_atom_wf(self@, block);
            }
        }
        let next_label = self.next_label + 1;
        let ScopedBuilder { root, open, next_label: _ } = self.push_stmt(Statement::Atom(block));
        ScopedBuilder { root, open, next_label }
    }

    /// Opens a scope of `kind` with the guard `test`.
    fn push_scope(self, kind: ScopeKind, test: BExp) -> (r: Self)
        requires
            self.next_label < usize::MAX,
        ensures
            r@ == self@.opened(kind, test),
            self@.wf() ==> r@.wf() && r@.first_label() == self@.first_label(),
    {
        proof {
            if self@.wf() {
                lemma_opened_wf(self@, kind, test);
            }
        }
        let ScopedBuilder { root, mut open, next_label } = self;
        open.push(
            Scope {
                kind,
                test: TestBlock { label: next_label, expr: test },
                first: Statement::Empty,
                contents: Statement::Empty,
            },
        );
        ScopedBuilder { root, open, next_label: next_label + 1 }
    }

    /// Closes the innermost scope and appends what it has become to the
    /// scope around it.
    fn pop_scope(self) -> (r: Self)
        requires
            self.open.len() > 0,
        ensures
            r@ == self@.closed(),
            self@.wf() ==> r@.wf() && r@.first_label() == self@.first_label(),
    {
        proof {
            if self@.wf() {
                lemma_closed_wf(self@);
            }
        }
        let ScopedBuilder { root, mut open, next_label } = self;
        let top = open.pop().unwrap();
        assert(open@ =~= self.open@.drop_last());
        let Scope { kind, test, first, contents } = top;
        let stmt = match kind {
            ScopeKind::Then => Statement::IfThenElse(
                test,
                Box::new(contents),
                Box::new(Statement::Empty),
            ),
            ScopeKind::Else => Statement::IfThenElse(test, Box::new(first), Box::new(contents)),
            ScopeKind::While => Statement::While(test, Box::new(contents)),
        };
        ScopedBuilder { root, open, next_label }.push_stmt(stmt)
    }

    /// The kind of the innermost open scope.
    pub fn innermost(&self) -> (r: Option<ScopeKind>)
        ensures
            match r {
                Some(kind) => self@.innermost_is(kind),
                None => self.open.len() == 0,
            },
    {
        if self.open.len() == 0 {
            None
        } else {
            Some(self.open[self.open.len() - 1].kind)
        }
    }

    /// Appends `[var := expr]` under the next label.
    pub fn assignment(self, var: Variable, expr: AExp) -> (r: Self)
        requires
            self.next_label < usize::MAX,
        ensures
            r@ == self@.with_atom(Block::assignment_of(self.next_label, var, expr)),
            self@.wf() ==> r@.wf() && r@.first_label() == self@.first_label(),
    {
        let block = Block::assignment(self.next_label, var, expr);
        self.push_atom(block)
    }

    /// Appends `[skip]` under the next label.
    pub fn skip(self) -> (r: Self)
        requires
            self.next_label < usize::MAX,
        ensures
            r@ == self@.with_atom(Block::skip_of(self.next_label)),
            self@.wf() ==> r@.wf() && r@.first_label() == self@.first_label(),
    {
        let block = Block::skip(self.next_label);
        self.push_atom(block)
    }

    /// Appends `[expr]` under the next label.
    pub fn test(self, expr: BExp) -> (r: Self)
        requires
            self.next_label < usize::MAX,
        ensures
            r@ == self@.with_atom(Block::test_of(self.next_label, expr)),
            self@.wf() ==> r@.wf() && r@.first_label() == self@.first_label(),
    {
        let block = Block::test(self.next_label, expr);
        self.push_atom(block)
    }

    /// Opens an `if` whose guard `test` takes the next label.
    pub fn begin_if(self, test: BExp) -> (r: Self)
        requires
            self.next_label < usize::MAX,
        ensures
            r@ == self@.opened(ScopeKind::Then, test),
            self@.wf() ==> r@.wf() && r@.first_label() == self@.first_label(),
    {
        self.push_scope(ScopeKind::Then, test)
    }

    /// Ends the first branch of the innermost `if` and begins the second.
    pub fn else_(self) -> (r: Result<Self, BuilderError>)
        ensures
            match r {
                Ok(b) => {
                    &&& self@.innermost_is(ScopeKind::Then)
                    &&& b@ == self@.switched()
                    &&& self@.wf() ==> b@.wf() && b@.first_label() == self@.first_label()
                },
                Err(e) => e == BuilderError::ElseWithoutIf && !self@.innermost_is(ScopeKind::Then),
            },
    {
        match self.innermost() {
            Some(ScopeKind::Then) => {
                proof {
                    if self@.wf() {
                        lemma_switched_wf(self@);
                    }
                }
                let ScopedBuilder { root, mut open, next_label } = self;
                let top = open.pop().unwrap();
                let Scope { kind: _, test, first: _, contents } = top;
                open.push(
                    Scope {
                        kind: ScopeKind::Else,
                        test,
                        first: contents,
                        contents: Statement::Empty,
                    },
                );
                Ok(ScopedBuilder { root, open, next_label })
            },
            _ => Err(BuilderError::ElseWithoutIf),
        }
    }

    /// Closes the innermost `if`.
    pub fn end_if(self) -> (r: Result<Self, BuilderError>)
        ensures
            match r {
                Ok(b) => {
                    &&& self@.innermost_is(ScopeKind::Then) || self@.innermost_is(ScopeKind::Else)
                    &&& b@ == self@.closed()
                    &&& self@.wf() ==> b@.wf() && b@.first_label() == self@.first_label()
                },
                Err(e) => e == BuilderError::NoOpenIf && !self@.innermost_is(ScopeKind::Then)
                    && !self@.innermost_is(ScopeKind::Else),
            },
    {
        match self.innermost() {
            Some(ScopeKind::Then) => Ok(self.pop_scope()),
            Some(ScopeKind::Else) => Ok(self.pop_scope()),
            _ => Err(BuilderError::NoOpenIf),
        }
    }

    /// Opens a `while` whose guard `test` takes the next label.
    pub fn begin_while(self, test: BExp) -> (r: Self)
        requires
            self.next_label < usize::MAX,
        ensures
            r@ == self@.opened(ScopeKind::While, test),
            self@.wf() ==> r@.wf() && r@.first_label() == self@.first_label(),
    {
        self.push_scope(ScopeKind::While, test)
    }

    /// Closes the innermost `while`.
    pub fn end_while(self) -> (r: Result<Self, BuilderError>)
        ensures
            match r {
                Ok(b) => {
                    &&& self@.innermost_is(ScopeKind::While)
                    &&& b@ == self@.closed()
                    &&& self@.wf() ==> b@.wf() && b@.first_label() == self@.first_label()
                },
                Err(e) => e == BuilderError::NoOpenWhile && !self@.innermost_is(ScopeKind::While),
            },
    {
        match self.innermost() {
            Some(ScopeKind::While) => Ok(self.pop_scope()),
            _ => Err(BuilderError::NoOpenWhile),
        }
    }

    /// The statement that has been built, once every scope is closed. If
    /// the builder is numbered and the statement is complete, its blocks
    /// carry the labels from the first label on in the order of execution.
    pub fn end(self) -> (r: Result<Statement, BuilderError>)
        ensures
            match r {
                Ok(stmt) => {
                    &&& self.open.len() == 0
                    &&& stmt == self.root
                    &&& self@.wf() && stmt.is_complete() ==> stmt.labelled_from(
                        self@.first_label(),
                    )
                },
                Err(e) => e == BuilderError::UnclosedScope && self.open.len() > 0,
            },
    {
        if self.open.len() > 0 {
            return Err(BuilderError::UnclosedScope);
        }
        proof {
            assert(self@.blocks() =~= self.root.blocks());
        }
        Ok(self.root)
    }
}

} // verus!
