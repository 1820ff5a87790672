//! A finished program: a statement tree whose blocks are labelled `1..=len`.

pub mod builder;

use crate::block::{Block, TestBlock};
use crate::expression::Label;
use crate::statement::{lemma_complete_has_init, lemma_relabelled, Statement};
use std::collections::HashSet;
use vstd::prelude::*;

verus! {

broadcast use vstd::std_specs::hash::group_hash_axioms;

/// A statement tree together with the number of its blocks.
#[derive(Debug, PartialEq, Eq)]
pub struct Program {
    pub contents: Statement,
    pub len: usize,
}

impl Clone for Program {
    fn clone(&self) -> (r: Self)
        ensures
            r == *self,
    {
        Program { contents: self.contents.clone(), len: self.len }
    }
}

/// Why a statement tree cannot be made into a program.
#[derive(Debug, PartialEq, Eq, Clone, Copy)]
pub enum ProgramError {
    /// An `Empty` is left somewhere in the tree.
    Incomplete,
    /// The tree has more blocks than there are labels.
    TooLarge,
}

/// The first block of `blocks` that carries `label`.
pub open spec fn find_block(blocks: Seq<Block>, label: Label) -> Option<Block>
    decreases blocks.len(),
{
    if blocks.len() == 0 {
        None
    } else if blocks[0].label() == label {
        Some(blocks[0])
    } else {
        find_block(blocks.drop_first(), label)
    }
}

/// Looking through `a + b` is looking through `a`, then through `b`.
pub proof fn lemma_find_block_concat(a: Seq<Block>, b: Seq<Block>, label: Label)
    ensures
        find_block(a + b, label) == match find_block(a, label) {
            Some(block) => Some(block),
            None => find_block(b, label),
        },
    decreases a.len(),
{
    if a.len() == 0 {
        assert(a + b =~= b);
    } else {
        assert((a + b).drop_first() =~= a.drop_first() + b);
        if a[0].label() != label {
            lemma_find_block_concat(a.drop_first(), b, label);
        }
    }
}

/// Among blocks labelled `start`, `start + 1`, ... the block with a given
/// label is found at the place that the label names.
pub proof fn lemma_find_block_labelled(blocks: Seq<Block>, start: int, label: Label)
    requires
        forall|i: int| 0 <= i < blocks.len() ==> #[trigger] blocks[i].label() == start + i,
    ensures
        find_block(blocks, label) == if start <= label < start + blocks.len() {
            Some(blocks[label - start])
        } else {
            None
        },
    decreases blocks.len(),
{
    if blocks.len() > 0 {
        let rest = blocks.drop_first();
        assert forall|i: int| 0 <= i < rest.len() implies #[trigger] rest[i].label() == start + 1
            + i by {
            assert(rest[i] == blocks[i + 1]);
        }
        lemma_find_block_labelled(rest, start + 1, label);
        if blocks[0].label() != label && start <= label < start + blocks.len() {
            assert(rest[label - (start + 1)] == blocks[label - start]);
        }
    }
}

/// The labels that occur in a program are exactly `1..=len`.
pub proof fn lemma_labels_contiguous(p: Program)
    requires
        p.wf(),
    ensures
        p.contents.labels() == Set::new(|l: Label| 1 <= l <= p.len),
        forall|l: Label| 1 <= l <= p.len ==> (#[trigger] p.block(l)).label() == l,
{
    let blocks = p.contents.blocks();
    assert forall|l: Label| p.contents.labels().contains(l) <==> 1 <= l <= p.len by {
        if 1 <= l <= p.len {
            assert(blocks[l - 1].label() == l);
        }
    }
    assert(p.contents.labels() =~= Set::new(|l: Label| 1 <= l <= p.len));
    assert forall|l: Label| 1 <= l <= p.len implies (#[trigger] p.block(l)).label() == l by {
        assert(blocks[l - 1].label() == l);
    }
}

impl Program {
    /// The blocks are labelled `1..=len` in the order in which they can
    /// first execute, and no `Empty` is left.
    pub open spec fn wf(&self) -> bool {
        &&& self.contents.labelled_from(1)
        &&& self.len == self.contents.size()
    }

    /// The block that carries `label`.
    pub open spec fn block(&self, label: Label) -> Block {
        self.contents.blocks()[label - 1]
    }

    /// No flow edge leaves a final label: once execution has reached a
    /// label from which it may leave the program, it does leave.
    pub open spec fn has_isolated_exits(&self) -> bool {
        forall|e: (Label, Label)| #[trigger]
            self.contents.flow().contains(e) ==> !self.contents.finals().contains(e.0)
    }

    /// Creates a program, labelling the blocks of `contents` from 1 on.
    pub fn new(contents: Statement) -> (r: Self)
        requires
            contents.is_complete(),
            contents.size() < usize::MAX,
        ensures
            r.wf(),
            r.contents == contents.relabelled(1),
            r.len == contents.size(),
    {
        proof {
            lemma_relabelled(contents, 1);
        }
        let (contents, next) = Program::relabel(contents, 1);
        Program { contents, len: next - 1 }
    }

    /// Creates a program as `new` does, if `contents` can be labelled.
    pub fn try_new(contents: Statement) -> (r: Result<Self, ProgramError>)
        ensures
            match r {
                Ok(p) => {
                    &&& contents.is_complete()
                    &&& contents.size() < usize::MAX
                    &&& p.wf()
                    &&& p.contents == contents.relabelled(1)
                    &&& p.len == contents.size()
                },
                Err(ProgramError::Incomplete) => !contents.is_complete(),
                Err(ProgramError::TooLarge) => contents.is_complete() && contents.size()
                    >= usize::MAX,
            },
    {
        if !contents.complete() {
            return Err(ProgramError::Incomplete);
        }
        match contents.count() {
            Some(n) => {
                if n == usize::MAX {
                    Err(ProgramError::TooLarge)
                } else {
                    Ok(Program::new(contents))
                }
            },
            None => Err(ProgramError::TooLarge),
        }
    }

    /// Whether the blocks are labelled `1..=len` in the order of execution
    /// and no `Empty` is left.
    pub fn is_valid(&self) -> (r: bool)
        ensures
            r == self.wf(),
    {
        match self.contents.labelled(1) {
            Some(n) => n == self.len,
            None => false,
        }
    }

    /// The block at a given label; `None` if the program has no such label.
    pub fn at(&self, label: Label) -> (r: Option<Block>)
        ensures
            r == find_block(self.contents.blocks(), label),
            self.wf() ==> r == if 1 <= label <= self.len {
                Some(self.block(label))
            } else {
                None
            },
    {
        proof {
            if self.wf() {
                lemma_find_block_labelled(self.contents.blocks(), 1, label);
            }
        }
        Program::stmt_at(&self.contents, label)
    }

    /// The label at which execution begins.
    pub fn init_label(&self) -> (r: Label)
        ensures
            r == 1,
            self.wf() ==> r == self.contents.init(),
    {
        proof {
            if self.wf() {
                lemma_complete_has_init(self.contents);
            }
        }
        1
    }

    /// The labels from which execution may leave the program.
    pub fn final_labels(&self) -> (r: HashSet<Label>)
        ensures
            r@ == self.contents.finals(),
    {
        let labels = crate::flow::final_labels(&self.contents);
        let mut r: HashSet<Label> = HashSet::new();
        let mut i: usize = 0;
        while i < labels.len()
            invariant
                i <= labels.len(),
                r@ == labels@.take(i as int).to_set(),
            decreases labels.len() - i,
        {
            r.insert(labels[i]);
            proof {
                assert(labels@.take(i + 1) =~= labels@.take(i as int).push(labels@[i as int]));
                labels@.take(i as int).lemma_push_to_set_commute(labels@[i as int]);
            }
            i += 1;
        }
        assert(labels@.take(labels.len() as int) =~= labels@);
        r
    }

    /// The flow edges `(from, to)`, each once, in the order in which
    /// `crate::flow::flow` finds them.
    pub fn flow(&self) -> (r: Vec<(Label, Label)>)
        requires
            self.contents.is_complete(),
        ensures
            r@.no_duplicates(),
            r@.to_set() == self.contents.flow(),
    {
        crate::flow::flow(&self.contents)
    }

    /// The flow edges turned round, each once, in the order of `flow`.
    pub fn flow_r(&self) -> (r: Vec<(Label, Label)>)
        requires
            self.contents.is_complete(),
        ensures
            r@.no_duplicates(),
            r@.to_set() == self.contents.flow_r(),
    {
        crate::flow::flow_r(&self.contents)
    }

    /// The blocks in the order of their labels.
    pub fn blocks(&self) -> (r: Vec<Block>)
        ensures
            r@ == self.contents.blocks(),
    {
        crate::flow::blocks(&self.contents)
    }

    /// Whether no flow edge leaves a final label.
    pub fn isolated_exits(&self) -> (r: bool)
        requires
            self.contents.is_complete(),
        ensures
            r == self.has_isolated_exits(),
    {
        let finals = crate::flow::final_labels(&self.contents);
        let edges = crate::flow::flow(&self.contents);
        let mut i: usize = 0;
        while i < edges.len()
            invariant
                i <= edges.len(),
                finals@.to_set() == self.contents.finals(),
                edges@.to_set() == self.contents.flow(),
                forall|j: int| 0 <= j < i ==> !self.contents.finals().contains((#[trigger] edges@[j]).0),
            decreases edges.len() - i,
        {
            if crate::flow::holds_label(&finals, edges[i].0) {
                proof {
                    assert(edges@.contains(edges@[i as int]));
                    assert(self.contents.flow().contains(edges@[i as int]));
                }
                return false;
            }
            i += 1;
        }
        proof {
            assert forall|e: (Label, Label)| #[trigger]
                self.contents.flow().contains(e) implies !self.contents.finals().contains(e.0) by {
                assert(edges@.contains(e));
                let j = choose|j: int| 0 <= j < edges@.len() && edges@[j] == e;
                assert(!self.contents.finals().contains(edges@[j].0));
            }
        }
        true
    }

    /// Labels the blocks of `stmt` from `start` on; returns the new tree and
    /// the label that comes after its last one.
    pub fn relabel(stmt: Statement, start: Label) -> (r: (Statement, Label))
        requires
            stmt.is_complete(),
            start + stmt.size() <= usize::MAX,
        ensures
            r.0 == stmt.relabelled(start as int),
            r.1 == start + stmt.size(),
        decreases stmt,
    {
        match stmt {
            Statement::Atom(block) => (Statement::Atom(block.relabelled(start)), start + 1),
            Statement::Sequence(stmt1, stmt2) => {
                let (new_stmt1, stmt2_start) = Program::relabel(*stmt1, start);
                let (new_stmt2, next) = Program::relabel(*stmt2, stmt2_start);
                (Statement::Sequence(Box::new(new_stmt1), Box::new(new_stmt2)), next)
            },
            Statement::IfThenElse(test, stmt1, stmt2) => {
                let new_test = TestBlock { label: start, expr: test.expr };
                let (new_stmt1, stmt2_start) = Program::relabel(*stmt1, start + 1);
                let (new_stmt2, next) = Program::relabel(*stmt2, stmt2_start);
                (Statement::IfThenElse(new_test, Box::new(new_stmt1), Box::new(new_stmt2)), next)
            },
            Statement::While(test, stmt1) => {
                let new_test = TestBlock { label: start, expr: test.expr };
                let (new_stmt1, next) = Program::relabel(*stmt1, start + 1);
                (Statement::While(new_test, Box::new(new_stmt1)), next)
            },
            Statement::Empty => unreached(),
        }
    }

    /// The first block of `stmt`, in the order of execution, that carries
    /// `label`.
    pub fn stmt_at(stmt: &Statement, label: Label) -> (r: Option<Block>)
        ensures
            r == find_block(stmt.blocks(), label),
        decreases stmt,
    {
        match stmt {
            Statement::Atom(block) => {
                assert(stmt.blocks().drop_first().len() == 0);
                if block.get_label() == label {
                    return Some(block.clone());
                }
                None
            },
            Statement::Sequence(stmt1, stmt2) => {
                proof {
                    lemma_find_block_concat(stmt1.blocks(), stmt2.blocks(), label);
                }
                if let Some(block) = Program::stmt_at(stmt1, label) {
                    return Some(block);
                }
                Program::stmt_at(stmt2, label)
            },
            Statement::IfThenElse(test, stmt1, stmt2) => {
                proof {
                    let rest = stmt1.blocks() + stmt2.blocks();
                    assert(stmt.blocks() =~= seq![Block::Test(*test)] + rest);
                    assert(stmt.blocks().drop_first() =~= rest);
                    lemma_find_block_concat(stmt1.blocks(), stmt2.blocks(), label);
                }
                if test.label == label {
                    return Some(Block::Test(test.clone()));
                }
                if let Some(block) = Program::stmt_at(stmt1, label) {
                    return Some(block);
                }
                Program::stmt_at(stmt2, label)
            },
            Statement::While(test, stmt1) => {
                proof {
                    assert(stmt.blocks().drop_first() =~= stmt1.blocks());
                }
                if test.label == label {
                    return Some(Block::Test(test.clone()));
                }
                Program::stmt_at(stmt1, label)
            },
            Statement::Empty => None,
        }
    }
}

} // verus!
