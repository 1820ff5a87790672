//! The structured statement tree.

pub mod boxed;
pub mod builder;

use crate::block::{Block, TestBlock};
use crate::expression::Label;
use vstd::prelude::*;

verus! {

/// A statement of the language, as a tree over elementary blocks.
#[derive(Debug, PartialEq, Eq)]
pub enum Statement {
    /// `[x := a]`, `[skip]`, `[b]`
    Atom(Block),
    /// `S1; S2`
    Sequence(Box<Statement>, Box<Statement>),
    /// `if [b] then S1 else S2`
    IfThenElse(TestBlock, Box<Statement>, Box<Statement>),
    /// `while [b] do S`
    While(TestBlock, Box<Statement>),
    /// The statement to which nothing has been appended yet.
    Empty,
}

impl Clone for Statement {
    fn clone(&self) -> (r: Self)
        ensures
            r == *self,
        decreases self,
    {
        match self {
            Statement::Atom(b) => Statement::Atom(b.clone()),
            Statement::Sequence(s1, s2) => {
                let c1 = (&**s1).clone();
                let c2 = (&**s2).clone();
                Statement::Sequence(Box::new(c1), Box::new(c2))
            },
            Statement::IfThenElse(t, s1, s2) => {
                let c1 = (&**s1).clone();
                let c2 = (&**s2).clone();
                Statement::IfThenElse(t.clone(), Box::new(c1), Box::new(c2))
            },
            Statement::While(t, s1) => {
                let c1 = (&**s1).clone();
                Statement::While(t.clone(), Box::new(c1))
            },
            Statement::Empty => Statement::Empty,
        }
    }
}

impl Statement {
    /// The elementary blocks of the statement in the order in which they
    /// can first execute: a guard before its branches or body, the first
    /// part of a sequence before the second.
    pub open spec fn blocks(self) -> Seq<Block>
        decreases self,
    {
        match self {
            Statement::Atom(b) => seq![b],
            Statement::Sequence(s1, s2) => s1.blocks() + s2.blocks(),
            Statement::IfThenElse(t, s1, s2) => seq![Block::Test(t)] + s1.blocks() + s2.blocks(),
            Statement::While(t, s1) => seq![Block::Test(t)] + s1.blocks(),
            Statement::Empty => Seq::empty(),
        }
    }

    /// The number of elementary blocks.
    pub open spec fn size(self) -> nat {
        self.blocks().len()
    }

    /// No `Empty` occurs anywhere in the tree.
    pub open spec fn is_complete(self) -> bool
        decreases self,
    {
        match self {
            Statement::Atom(_) => true,
            Statement::Sequence(s1, s2) => s1.is_complete() && s2.is_complete(),
            Statement::IfThenElse(_, s1, s2) => s1.is_complete() && s2.is_complete(),
            Statement::While(_, s1) => s1.is_complete(),
            Statement::Empty => false,
        }
    }

    /// The statement has a first block: going down the first parts of its
    /// sequences ends in something other than `Empty`.
    pub open spec fn has_init(self) -> bool
        decreases self,
    {
        match self {
            Statement::Sequence(s1, _) => s1.has_init(),
            Statement::Empty => false,
            _ => true,
        }
    }

    /// The label of the block that executes first.
    pub open spec fn init(self) -> Label
        decreases self,
    {
        match self {
            Statement::Atom(b) => b.label(),
            Statement::Sequence(s1, _) => s1.init(),
            Statement::IfThenElse(t, _, _) => t.label,
            Statement::While(t, _) => t.label,
            Statement::Empty => 0,
        }
    }

    /// The labels that occur in the tree.
    pub open spec fn labels(self) -> Set<Label> {
        Set::new(|l: Label| exists|i: int| 0 <= i < self.blocks().len() && #[trigger] self.blocks()[i].label() == l)
    }

    /// The blocks carry the labels `start`, `start + 1`, ... in the order of
    /// `blocks`, and the tree is complete.
    pub open spec fn labelled_from(self, start: int) -> bool {
        &&& self.is_complete()
        &&& forall|i: int| 0 <= i < self.blocks().len() ==> #[trigger] self.blocks()[i].label() == start + i
    }

    /// What `append` builds: `next` goes to the end of the chain of
    /// sequences that `self` is, and takes the place of an `Empty` there.
    pub open spec fn appended(self, next: Statement) -> Statement
        decreases self,
    {
        match self {
            Statement::Empty => next,
            Statement::Sequence(s1, s2) => Statement::Sequence(s1, Box::new(s2.appended(next))),
            other => Statement::Sequence(Box::new(other), Box::new(next)),
        }
    }

    /// The same tree with its blocks labelled `start`, `start + 1`, ... in
    /// the order of `blocks`.
    pub open spec fn relabelled(self, start: int) -> Statement
        decreases self,
    {
        match self {
            Statement::Atom(b) => Statement::Atom(b.with_label(start as usize)),
            Statement::Sequence(s1, s2) => Statement::Sequence(
                Box::new(s1.relabelled(start)),
                Box::new(s2.relabelled(start + s1.size())),
            ),
            Statement::IfThenElse(t, s1, s2) => Statement::IfThenElse(
                TestBlock { label: start as usize, expr: t.expr },
                Box::new(s1.relabelled(start + 1)),
                Box::new(s2.relabelled(start + 1 + s1.size())),
            ),
            Statement::While(t, s1) => Statement::While(
                TestBlock { label: start as usize, expr: t.expr },
                Box::new(s1.relabelled(start + 1)),
            ),
            Statement::Empty => Statement::Empty,
        }
    }

    /// The label of the block that executes first.
    pub fn get_label(&self) -> (r: Label)
        requires
            self.has_init(),
        ensures
            r == self.init(),
        decreases self,
    {
        match self {
            Statement::Atom(block) => block.get_label(),
            Statement::Sequence(s1, _) => s1.get_label(),
            Statement::IfThenElse(test, _, _) => test.label,
            Statement::While(test, _) => test.label,
            Statement::Empty => unreached(),
        }
    }

    /// Puts `next` behind `self`.
    pub fn append(self, next: Statement) -> (r: Statement)
        ensures
            r == self.appended(next),
        decreases self,
    {
        match self {
            Statement::Empty => next,
            Statement::Sequence(s1, s2) => {
                let tail = (*s2).append(next);
                Statement::Sequence(s1, Box::new(tail))
            },
            other => Statement::Sequence(Box::new(other), Box::new(next)),
        }
    }

    /// The number of elementary blocks, if it fits a `usize`.
    pub fn count(&self) -> (r: Option<usize>)
        ensures
            match r {
                Some(n) => n == self.size(),
                None => self.size() > usize::MAX,
            },
        decreases self,
    {
        match self {
            Statement::Atom(_) => Some(1),
            Statement::Sequence(s1, s2) => match (s1.count(), s2.count()) {
                (Some(a), Some(b)) => a.checked_add(b),
                _ => None,
            },
            Statement::IfThenElse(_, s1, s2) => match (s1.count(), s2.count()) {
                (Some(a), Some(b)) => match a.checked_add(b) {
                    Some(c) => c.checked_add(1),
                    None => None,
                },
                _ => None,
            },
            Statement::While(_, s1) => match s1.count() {
                Some(a) => a.checked_add(1),
                None => None,
            },
            Statement::Empty => Some(0),
        }
    }

    /// The number of blocks, if the tree is labelled from `start` on and
    /// that number fits a `usize`.
    pub fn labelled(&self, start: Label) -> (r: Option<usize>)
        ensures
            match r {
                Some(n) => self.labelled_from(start as int) && n == self.size(),
                None => !self.labelled_from(start as int) || self.size() > usize::MAX,
            },
        decreases self,
    {
        proof {
            if self.labelled_from(start as int) {
                lemma_labelled_parts(*self, start as int);
                lemma_complete_has_init(*self);
            }
        }
        match self {
            Statement::Atom(block) => {
                if block.get_label() == start {
                    proof {
                        lemma_labelled_whole(*self, start as int);
                    }
                    Some(1)
                } else {
                    None
                }
            },
            Statement::Sequence(s1, s2) => {
                let n1 = match s1.labelled(start) {
                    Some(n) => n,
                    None => { return None; },
                };
                let start2 = match start.checked_add(n1) {
                    Some(l) => l,
                    None => {
                        proof {
                            if s2.labelled_from(start + n1) {
                                lemma_complete_has_init(**s2);
                                assert(s2.blocks()[0].label() == start + n1);
                            }
                        }
                        return None;
                    },
                };
                let n2 = match s2.labelled(start2) {
                    Some(n) => n,
                    None => { return None; },
                };
                proof {
                    lemma_labelled_whole(*self, start as int);
                }
                n1.checked_add(n2)
            },
            Statement::IfThenElse(test, s1, s2) => {
                if test.label != start {
                    return None;
                }
                let start1 = match start.checked_add(1) {
                    Some(l) => l,
                    None => {
                        proof {
                            if s1.labelled_from(start + 1) {
                                lemma_complete_has_init(**s1);
                                assert(s1.blocks()[0].label() == start + 1);
                            }
                        }
                        return None;
                    },
                };
                let n1 = match s1.labelled(start1) {
                    Some(n) => n,
                    None => { return None; },
                };
                let start2 = match start1.checked_add(n1) {
                    Some(l) => l,
                    None => {
                        proof {
                            if s2.labelled_from(start1 + n1) {
                                lemma_complete_has_init(**s2);
                                assert(s2.blocks()[0].label() == start1 + n1);
                            }
                        }
                        return None;
                    },
                };
                let n2 = match s2.labelled(start2) {
                    Some(n) => n,
                    None => { return None; },
                };
                proof {
                    lemma_labelled_whole(*self, start as int);
                }
                match n1.checked_add(n2) {
                    Some(n) => n.checked_add(1),
                    None => None,
                }
            },
            Statement::While(test, s1) => {
                if test.label != start {
                    return None;
                }
                let start1 = match start.checked_add(1) {
                    Some(l) => l,
                    None => {
                        proof {
                            if s1.labelled_from(start + 1) {
                                lemma_complete_has_init(**s1);
                                assert(s1.blocks()[0].label() == start + 1);
                            }
                        }
                        return None;
                    },
                };
                let n1 = match s1.labelled(start1) {
                    Some(n) => n,
                    None => { return None; },
                };
                proof {
                    lemma_labelled_whole(*self, start as int);
                }
                n1.checked_add(1)
            },
            Statement::Empty => None,
        }
    }

    /// Whether no `Empty` occurs in the tree.
    pub fn complete(&self) -> (r: bool)
        ensures
            r == self.is_complete(),
        decreases self,
    {
        match self {
            Statement::Atom(_) => true,
            Statement::Sequence(s1, s2) => s1.complete() && s2.complete(),
            Statement::IfThenElse(_, s1, s2) => s1.complete() && s2.complete(),
            Statement::While(_, s1) => s1.complete(),
            Statement::Empty => false,
        }
    }
}

/// The blocks of an appended statement are those of the first, then those
/// of the second.
pub proof fn lemma_appended_blocks(s: Statement, next: Statement)
    ensures
        s.appended(next).blocks() == s.blocks() + next.blocks(),
    decreases s,
{
    match s {
        Statement::Sequence(s1, s2) => {
            lemma_appended_blocks(*s2, next);
            assert(s1.blocks() + (s2.blocks() + next.blocks()) =~= (s1.blocks() + s2.blocks())
                + next.blocks());
        },
        Statement::Empty => {
            assert(Seq::<Block>::empty() + next.blocks() =~= next.blocks());
        },
        _ => {},
    }
}

/// Appending to `Empty` leaves no `Empty` behind, and appending a complete
/// statement to a complete one gives a complete one.
pub proof fn lemma_appended_complete(s: Statement, next: Statement)
    requires
        next.is_complete(),
        s.is_complete() || s == Statement::Empty,
    ensures
        s.appended(next).is_complete(),
        s == Statement::Empty ==> s.appended(next) == next,
    decreases s,
{
    match s {
        Statement::Sequence(s1, s2) => {
            lemma_appended_complete(*s2, next);
        },
        _ => {},
    }
}

/// A complete statement has a first block.
pub proof fn lemma_complete_has_init(s: Statement)
    requires
        s.is_complete(),
    ensures
        s.has_init(),
        s.size() >= 1,
        s.blocks()[0].label() == s.init(),
    decreases s,
{
    match s {
        Statement::Sequence(s1, s2) => {
            lemma_complete_has_init(*s1);
        },
        _ => {},
    }
}

/// Relabelling keeps the shape and the blocks of a tree and numbers the
/// blocks from `start` on.
pub proof fn lemma_relabelled(s: Statement, start: int)
    requires
        0 <= start,
        start + s.size() <= usize::MAX,
    ensures
        s.relabelled(start).is_complete() == s.is_complete(),
        s.relabelled(start).size() == s.size(),
        forall|i: int|
            0 <= i < s.size() ==> #[trigger] s.relabelled(start).blocks()[i]
                == s.blocks()[i].with_label((start + i) as usize),
    decreases s,
{
    match s {
        Statement::Sequence(s1, s2) => {
            lemma_relabelled(*s1, start);
            lemma_relabelled(*s2, start + s1.size());
        },
        Statement::IfThenElse(t, s1, s2) => {
            lemma_relabelled(*s1, start + 1);
            lemma_relabelled(*s2, start + 1 + s1.size());
        },
        Statement::While(t, s1) => {
            lemma_relabelled(*s1, start + 1);
        },
        _ => {},
    }
}

/// The parts of a labelled tree are labelled in turn: a guard takes the
/// first label, each part starts where the one before it ends.
pub proof fn lemma_labelled_parts(s: Statement, start: int)
    requires
        s.labelled_from(start),
    ensures
        match s {
            Statement::Atom(b) => b.label() == start,
            Statement::Sequence(s1, s2) => s1.labelled_from(start) && s2.labelled_from(
                start + s1.size(),
            ),
            Statement::IfThenElse(t, s1, s2) => t.label == start && s1.labelled_from(start + 1)
                && s2.labelled_from(start + 1 + s1.size()),
            Statement::While(t, s1) => t.label == start && s1.labelled_from(start + 1),
            Statement::Empty => false,
        },
{
    match s {
        Statement::Atom(b) => {
            assert(s.blocks()[0].label() == start);
        },
        Statement::Sequence(s1, s2) => {
            assert forall|i: int| 0 <= i < s1.blocks().len() implies #[trigger] s1.blocks()[i].label()
                == start + i by {
                assert(s.blocks()[i] == s1.blocks()[i]);
            }
            assert forall|i: int| 0 <= i < s2.blocks().len() implies #[trigger] s2.blocks()[i].label()
                == start + s1.size() + i by {
                assert(s.blocks()[i + s1.size()] == s2.blocks()[i]);
            }
        },
        Statement::IfThenElse(t, s1, s2) => {
            assert(s.blocks()[0] == Block::Test(t));
            assert(s.blocks()[0].label() == start);
            assert forall|i: int| 0 <= i < s1.blocks().len() implies #[trigger] s1.blocks()[i].label()
                == start + 1 + i by {
                assert(s.blocks()[i + 1] == s1.blocks()[i]);
            }
            assert forall|i: int| 0 <= i < s2.blocks().len() implies #[trigger] s2.blocks()[i].label()
                == start + 1 + s1.size() + i by {
                assert(s.blocks()[i + 1 + s1.size()] == s2.blocks()[i]);
            }
        },
        Statement::While(t, s1) => {
            assert(s.blocks()[0] == Block::Test(t));
            assert(s.blocks()[0].label() == start);
            assert forall|i: int| 0 <= i < s1.blocks().len() implies #[trigger] s1.blocks()[i].label()
                == start + 1 + i by {
                assert(s.blocks()[i + 1] == s1.blocks()[i]);
            }
        },
        Statement::Empty => {},
    }
}

/// Parts that are labelled in turn make a labelled tree.
pub proof fn lemma_labelled_whole(s: Statement, start: int)
    requires
        match s {
            Statement::Atom(b) => b.label() == start,
            Statement::Sequence(s1, s2) => s1.labelled_from(start) && s2.labelled_from(
                start + s1.size(),
            ),
            Statement::IfThenElse(t, s1, s2) => t.label == start && s1.labelled_from(start + 1)
                && s2.labelled_from(start + 1 + s1.size()),
            Statement::While(t, s1) => t.label == start && s1.labelled_from(start + 1),
            Statement::Empty => false,
        },
    ensures
        s.labelled_from(start),
{
    assert forall|i: int| 0 <= i < s.blocks().len() implies #[trigger] s.blocks()[i].label()
        == start + i by {
        match s {
            Statement::Atom(b) => {},
            Statement::Sequence(s1, s2) => {
                if i < s1.size() {
                    assert(s.blocks()[i] == s1.blocks()[i]);
                } else {
                    assert(s.blocks()[i] == s2.blocks()[i - s1.size()]);
                }
            },
            Statement::IfThenElse(t, s1, s2) => {
                if i == 0 {
                } else if i < 1 + s1.size() {
                    assert(s.blocks()[i] == s1.blocks()[i - 1]);
                } else {
                    assert(s.blocks()[i] == s2.blocks()[i - 1 - s1.size()]);
                }
            },
            Statement::While(t, s1) => {
                if i > 0 {
                    assert(s.blocks()[i] == s1.blocks()[i - 1]);
                }
            },
            Statement::Empty => {},
        }
    }
}

/// Relabelling a tree that is labelled from `start` on changes nothing.
pub proof fn lemma_relabelled_fixed(s: Statement, start: int)
    requires
        s.labelled_from(start),
    ensures
        s.relabelled(start) == s,
    decreases s,
{
    lemma_labelled_parts(s, start);
    match s {
        Statement::Atom(b) => {
            assert(b.with_label(b.label()) == b);
        },
        Statement::Sequence(s1, s2) => {
            lemma_relabelled_fixed(*s1, start);
            lemma_relabelled_fixed(*s2, start + s1.size());
        },
        Statement::IfThenElse(t, s1, s2) => {
            lemma_relabelled_fixed(*s1, start + 1);
            lemma_relabelled_fixed(*s2, start + 1 + s1.size());
        },
        Statement::While(t, s1) => {
            lemma_relabelled_fixed(*s1, start + 1);
        },
        Statement::Empty => {},
    }
}

} // verus!
