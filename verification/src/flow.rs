//! Control flow, read off the shape of a statement tree: the final labels,
//! the flow relation and its reverse.
//!
//! The executable functions hand a set out as a vector in which nothing
//! occurs twice. Its order is fixed by the tree: parts come before the edges
//! that join them, the first part of a sequence before the second.

use crate::block::Block;
use crate::expression::Label;
use crate::statement::{lemma_complete_has_init, lemma_labelled_parts, Statement};
use vstd::prelude::*;

verus! {

impl Statement {
    /// The labels from which execution may leave the statement.
    pub open spec fn finals(self) -> Set<Label>
        decreases self,
    {
        match self {
            Statement::Atom(b) => set![b.label()],
            Statement::Sequence(_, s2) => s2.finals(),
            Statement::IfThenElse(_, s1, s2) => s1.finals().union(s2.finals()),
            Statement::While(t, _) => set![t.label],
            Statement::Empty => Set::empty(),
        }
    }

    /// The edges `(from, to)` along which control may pass in one step.
    pub open spec fn flow(self) -> Set<(Label, Label)>
        decreases self,
    {
        match self {
            Statement::Atom(_) => Set::empty(),
            Statement::Sequence(s1, s2) => s1.flow().union(s2.flow()).union(
                joining(s1.finals(), s2.init()),
            ),
            Statement::IfThenElse(t, s1, s2) => s1.flow().union(s2.flow()).insert(
                (t.label, s1.init()),
            ).insert((t.label, s2.init())),
            Statement::While(t, s1) => s1.flow().insert((t.label, s1.init())).union(
                joining(s1.finals(), t.label),
            ),
            Statement::Empty => Set::empty(),
        }
    }

    /// The flow relation with every edge turned round.
    pub open spec fn flow_r(self) -> Set<(Label, Label)> {
        Set::new(|e: (Label, Label)| self.flow().contains((e.1, e.0)))
    }
}

/// The edges from each of `sources` to `target`.
pub open spec fn joining(sources: Set<Label>, target: Label) -> Set<(Label, Label)> {
    Set::new(|e: (Label, Label)| sources.contains(e.0) && e.1 == target)
}

proof fn lemma_push_to_set<T>(s: Seq<T>, x: T)
    ensures
        s.push(x).to_set() == s.to_set().insert(x),
        !s.contains(x) && s.no_duplicates() ==> s.push(x).no_duplicates(),
{
    s.lemma_push_to_set_commute(x);
}

/// Whether `label` is among `labels`.
pub fn holds_label(labels: &Vec<Label>, label: Label) -> (r: bool)
    ensures
        r == labels@.contains(label),
{
    let mut i: usize = 0;
    while i < labels.len()
        invariant
            i <= labels.len(),
            forall|j: int| 0 <= j < i ==> labels@[j] != label,
        decreases labels.len() - i,
    {
        if labels[i] == label {
            return true;
        }
        i += 1;
    }
    false
}

/// Adds `label` to `acc` unless it is there.
fn add_label(acc: &mut Vec<Label>, label: Label)
    requires
        old(acc)@.no_duplicates(),
    ensures
        final(acc)@.no_duplicates(),
        final(acc)@.to_set() == old(acc)@.to_set().insert(label),
{
    let mut i: usize = 0;
    while i < acc.len()
        invariant
            i <= acc.len(),
            *acc == *old(acc),
            acc@.no_duplicates(),
            forall|j: int| 0 <= j < i ==> acc@[j] != label,
        decreases acc.len() - i,
    {
        if acc[i] == label {
            assert(acc@.contains(label));
            assert(acc@.to_set().insert(label) =~= acc@.to_set());
            return ;
        }
        i += 1;
    }
    proof {
        lemma_push_to_set(acc@, label);
    }
    acc.push(label);
}

/// Adds `edge` to `acc` unless it is there.
fn add_edge(acc: &mut Vec<(Label, Label)>, edge: (Label, Label))
    requires
        old(acc)@.no_duplicates(),
    ensures
        final(acc)@.no_duplicates(),
        final(acc)@.to_set() == old(acc)@.to_set().insert(edge),
{
    let mut i: usize = 0;
    while i < acc.len()
        invariant
            i <= acc.len(),
            *acc == *old(acc),
            acc@.no_duplicates(),
            forall|j: int| 0 <= j < i ==> acc@[j] != edge,
        decreases acc.len() - i,
    {
        if acc[i].0 == edge.0 && acc[i].1 == edge.1 {
            assert(acc@[i as int] == edge);
            assert(acc@.contains(edge));
            assert(acc@.to_set().insert(edge) =~= acc@.to_set());
            return ;
        }
        i += 1;
    }
    proof {
        lemma_push_to_set(acc@, edge);
    }
    acc.push(edge);
}

/// Adds the edges from each of `sources` to `target`.
fn add_joining(acc: &mut Vec<(Label, Label)>, sources: &Vec<Label>, target: Label)
    requires
        old(acc)@.no_duplicates(),
    ensures
        final(acc)@.no_duplicates(),
        final(acc)@.to_set() == old(acc)@.to_set().union(joining(sources@.to_set(), target)),
{
    let mut k: usize = 0;
    while k < sources.len()
        invariant
            k <= sources.len(),
            acc@.no_duplicates(),
            acc@.to_set() == old(acc)@.to_set().union(
                joining(sources@.take(k as int).to_set(), target),
            ),
        decreases sources.len() - k,
    {
        let ghost before = acc@.to_set();
        add_edge(acc, (sources[k], target));
        proof {
            let a = sources@.take(k as int);
            let b = sources@.take(k + 1);
            assert(b =~= a.push(sources@[k as int]));
            lemma_push_to_set(a, sources@[k as int]);
            assert(joining(b.to_set(), target) =~= joining(a.to_set(), target).insert(
                (sources@[k as int], target),
            ));
            assert(acc@.to_set() =~= old(acc)@.to_set().union(joining(b.to_set(), target)));
        }
        k += 1;
    }
    proof {
        assert(sources@.take(sources.len() as int) =~= sources@);
    }
}

/// Adds the final labels of `stmt` to `acc`.
fn collect_finals(stmt: &Statement, acc: &mut Vec<Label>)
    requires
        old(acc)@.no_duplicates(),
    ensures
        final(acc)@.no_duplicates(),
        final(acc)@.to_set() == old(acc)@.to_set().union(stmt.finals()),
    decreases stmt,
{
    match stmt {
        Statement::Atom(block) => {
            add_label(acc, block.get_label());
            assert(acc@.to_set() =~= old(acc)@.to_set().union(stmt.finals()));
        },
        Statement::Sequence(_, s2) => {
            collect_finals(s2, acc);
        },
        Statement::IfThenElse(_, s1, s2) => {
            collect_finals(s1, acc);
            collect_finals(s2, acc);
            assert(acc@.to_set() =~= old(acc)@.to_set().union(stmt.finals()));
        },
        Statement::While(test, _) => {
            add_label(acc, test.label);
            assert(acc@.to_set() =~= old(acc)@.to_set().union(stmt.finals()));
        },
        Statement::Empty => {
            assert(acc@.to_set() =~= old(acc)@.to_set().union(stmt.finals()));
        },
    }
}

/// Adds the flow edges of `stmt` to `acc`.
fn collect_flow(stmt: &Statement, acc: &mut Vec<(Label, Label)>)
    requires
        stmt.is_complete(),
        old(acc)@.no_duplicates(),
    ensures
        final(acc)@.no_duplicates(),
        final(acc)@.to_set() == old(acc)@.to_set().union(stmt.flow()),
    decreases stmt,
{
    match stmt {
        Statement::Atom(_) => {
            assert(acc@.to_set() =~= old(acc)@.to_set().union(stmt.flow()));
        },
        Statement::Sequence(s1, s2) => {
            proof {
                lemma_complete_has_init(**s2);
            }
            collect_flow(s1, acc);
            collect_flow(s2, acc);
            let sources = final_labels(s1);
            add_joining(acc, &sources, s2.get_label());
            assert(acc@.to_set() =~= old(acc)@.to_set().union(stmt.flow()));
        },
        Statement::IfThenElse(test, s1, s2) => {
            proof {
                lemma_complete_has_init(**s1);
                lemma_complete_has_init(**s2);
            }
            collect_flow(s1, acc);
            collect_flow(s2, acc);
            add_edge(acc, (test.label, s1.get_label()));
            add_edge(acc, (test.label, s2.get_label()));
            assert(acc@.to_set() =~= old(acc)@.to_set().union(stmt.flow()));
        },
        Statement::While(test, s1) => {
            proof {
                lemma_complete_has_init(**s1);
            }
            collect_flow(s1, acc);
            add_edge(acc, (test.label, s1.get_label()));
            let sources = final_labels(s1);
            add_joining(acc, &sources, test.label);
            assert(acc@.to_set() =~= old(acc)@.to_set().union(stmt.flow()));
        },
        Statement::Empty => {
            assert(acc@.to_set() =~= old(acc)@.to_set().union(stmt.flow()));
        },
    }
}

/// The final labels of `stmt`, each once.
pub fn final_labels(stmt: &Statement) -> (r: Vec<Label>)
    ensures
        r@.no_duplicates(),
        r@.to_set() == stmt.finals(),
{
    let mut acc: Vec<Label> = Vec::new();
    collect_finals(stmt, &mut acc);
    assert(acc@.to_set() =~= stmt.finals());
    acc
}

/// The flow edges of `stmt`, each once.
pub fn flow(stmt: &Statement) -> (r: Vec<(Label, Label)>)
    requires
        stmt.is_complete(),
    ensures
        r@.no_duplicates(),
        r@.to_set() == stmt.flow(),
{
    let mut acc: Vec<(Label, Label)> = Vec::new();
    collect_flow(stmt, &mut acc);
    assert(acc@.to_set() =~= stmt.flow());
    acc
}

/// The flow edges of `stmt` turned round, each once, in the order of `flow`.
pub fn flow_r(stmt: &Statement) -> (r: Vec<(Label, Label)>)
    requires
        stmt.is_complete(),
    ensures
        r@.no_duplicates(),
        r@.to_set() == stmt.flow_r(),
{
    let forward = flow(stmt);
    let mut acc: Vec<(Label, Label)> = Vec::new();
    let mut i: usize = 0;
    while i < forward.len()
        invariant
            i <= forward.len(),
            acc.len() == i,
            forall|j: int| 0 <= j < i ==> acc@[j] == (forward@[j].1, forward@[j].0),
        decreases forward.len() - i,
    {
        acc.push((forward[i].1, forward[i].0));
        i += 1;
    }
    proof {
        assert forall|a: int, b: int| 0 <= a < acc.len() && 0 <= b < acc.len() && a != b implies acc@[a]
            != acc@[b] by {
            assert(forward@[a] != forward@[b]);
        }
        assert forall|e: (Label, Label)| acc@.contains(e) <==> stmt.flow_r().contains(e) by {
            if acc@.contains(e) {
                let j = choose|j: int| 0 <= j < acc.len() && acc@[j] == e;
                assert(forward@.contains(forward@[j]));
                assert(forward@.to_set().contains((e.1, e.0)));
            }
            if stmt.flow_r().contains(e) {
                assert(forward@.to_set().contains((e.1, e.0)));
                let j = choose|j: int| 0 <= j < forward.len() && forward@[j] == (e.1, e.0);
                assert(acc@[j] == e);
            }
        }
        assert(acc@.to_set() =~= stmt.flow_r());
    }
    acc
}

/// The blocks of `stmt` in the order in which they can first execute.
pub fn blocks(stmt: &Statement) -> (r: Vec<Block>)
    ensures
        r@ == stmt.blocks(),
{
    let mut acc: Vec<Block> = Vec::new();
    collect_blocks(stmt, &mut acc);
    assert(Seq::<Block>::empty() + stmt.blocks() =~= stmt.blocks());
    acc
}

fn collect_blocks(stmt: &Statement, acc: &mut Vec<Block>)
    ensures
        final(acc)@ == old(acc)@ + stmt.blocks(),
    decreases stmt,
{
    match stmt {
        Statement::Atom(block) => {
            acc.push(block.clone());
            assert(acc@ =~= old(acc)@ + stmt.blocks());
        },
        Statement::Sequence(s1, s2) => {
            collect_blocks(s1, acc);
            collect_blocks(s2, acc);
            assert(acc@ =~= old(acc)@ + stmt.blocks());
        },
        Statement::IfThenElse(test, s1, s2) => {
            acc.push(Block::Test(test.clone()));
            collect_blocks(s1, acc);
            collect_blocks(s2, acc);
            assert(acc@ =~= old(acc)@ + stmt.blocks());
        },
        Statement::While(test, s1) => {
            acc.push(Block::Test(test.clone()));
            collect_blocks(s1, acc);
            assert(acc@ =~= old(acc)@ + stmt.blocks());
        },
        Statement::Empty => {
            assert(acc@ =~= old(acc)@ + stmt.blocks());
        },
    }
}

/// In a tree labelled from `start` on, execution begins at `start`, and
/// the final labels and both ends of every flow edge are labels of the tree.
pub proof fn lemma_flow_in_range(s: Statement, start: int)
    requires
        s.labelled_from(start),
    ensures
        s.init() == start,
        s.size() >= 1,
        forall|l: Label| #[trigger] s.finals().contains(l) ==> start <= l < start + s.size(),
        forall|e: (Label, Label)| #[trigger]
            s.flow().contains(e) ==> start <= e.0 < start + s.size() && start <= e.1 < start
                + s.size(),
    decreases s,
{
    lemma_labelled_parts(s, start);
    lemma_complete_has_init(s);
    match s {
        Statement::Sequence(s1, s2) => {
            lemma_flow_in_range(*s1, start);
            lemma_flow_in_range(*s2, start + s1.size());
            assert(s.size() == s1.size() + s2.size());
            assert(s.finals() == s2.finals());
            assert forall|e: (Label, Label)| #[trigger] s.flow().contains(e) implies start <= e.0
                < start + s.size() && start <= e.1 < start + s.size() by {
                if !s1.flow().contains(e) && !s2.flow().contains(e) {
                    assert(s1.finals().contains(e.0));
                }
            }
        },
        Statement::IfThenElse(t, s1, s2) => {
            lemma_flow_in_range(*s1, start + 1);
            lemma_flow_in_range(*s2, start + 1 + s1.size());
            assert(s.size() == 1 + s1.size() + s2.size());
            assert forall|l: Label| #[trigger] s.finals().contains(l) implies start <= l < start
                + s.size() by {
                if !s1.finals().contains(l) {
                    assert(s2.finals().contains(l));
                }
            }
            assert forall|e: (Label, Label)| #[trigger] s.flow().contains(e) implies start <= e.0
                < start + s.size() && start <= e.1 < start + s.size() by {
                if !s1.flow().contains(e) && !s2.flow().contains(e) {
                    assert(e == (t.label, s1.init()) || e == (t.label, s2.init()));
                }
            }
        },
        Statement::While(t, s1) => {
            lemma_flow_in_range(*s1, start + 1);
            assert(s.size() == 1 + s1.size());
            assert forall|e: (Label, Label)| #[trigger] s.flow().contains(e) implies start <= e.0
                < start + s.size() && start <= e.1 < start + s.size() by {
                if !s1.flow().contains(e) && e != (t.label, s1.init()) {
                    assert(s1.finals().contains(e.0));
                }
            }
        },
        _ => {},
    }
}

/// In a labelled tree no flow edge leads from a final label to a final
/// label.
pub proof fn lemma_no_flow_between_finals(s: Statement, start: int)
    requires
        s.labelled_from(start),
    ensures
        forall|e: (Label, Label)| #[trigger]
            s.flow().contains(e) && s.finals().contains(e.0) ==> !s.finals().contains(e.1),
    decreases s,
{
    lemma_labelled_parts(s, start);
    lemma_flow_in_range(s, start);
    match s {
        Statement::Sequence(s1, s2) => {
            lemma_flow_in_range(*s1, start);
            lemma_flow_in_range(*s2, start + s1.size());
            lemma_no_flow_between_finals(*s2, start + s1.size());
            assert(s.finals() == s2.finals());
            assert forall|e: (Label, Label)| #[trigger]
                s.flow().contains(e) && s.finals().contains(e.0) implies !s.finals().contains(
                e.1,
            ) by {
                if !s1.flow().contains(e) && !s2.flow().contains(e) {
                    assert(s1.finals().contains(e.0));
                }
            }
        },
        Statement::IfThenElse(t, s1, s2) => {
            lemma_flow_in_range(*s1, start + 1);
            lemma_flow_in_range(*s2, start + 1 + s1.size());
            lemma_no_flow_between_finals(*s1, start + 1);
            lemma_no_flow_between_finals(*s2, start + 1 + s1.size());
            assert forall|e: (Label, Label)| #[trigger]
                s.flow().contains(e) && s.finals().contains(e.0) implies !s.finals().contains(
                e.1,
            ) by {
                if s1.flow().contains(e) {
                    assert(!s2.finals().contains(e.0) && !s2.finals().contains(e.1));
                } else if s2.flow().contains(e) {
                    assert(!s1.finals().contains(e.0) && !s1.finals().contains(e.1));
                } else {
                    assert(e.0 == t.label);
                    assert(!s1.finals().contains(e.0) && !s2.finals().contains(e.0));
                }
            }
        },
        Statement::While(t, s1) => {
            lemma_flow_in_range(*s1, start + 1);
            assert forall|e: (Label, Label)| #[trigger]
                s.flow().contains(e) && s.finals().contains(e.0) implies !s.finals().contains(
                e.1,
            ) by {
                if !s1.flow().contains(e) && e != (t.label, s1.init()) {
                    assert(s1.finals().contains(e.0));
                }
            }
        },
        _ => {},
    }
}

} // verus!
