//! The liveness equations: what a block reads and overwrites, and the
//! variables that are live where a block is left and where it is entered.

use crate::block::Block;
use crate::expression::{Label, Variable};
use crate::flow::{holds_label, lemma_flow_in_range};
use crate::lattice::{
    bottom, difference, empty_sets, same_family, sets_of, union_into, Family,
};
use crate::program::Program;
use std::collections::HashSet;
use vstd::prelude::*;

verus! {

broadcast use vstd::std_specs::hash::group_hash_axioms;

/// The variables live behind one block.
pub type LVExitAtLabel = HashSet<Variable>;

/// The variables live behind each block: those of label `l` at index
/// `l - 1`.
pub type LVExit = Vec<HashSet<Variable>>;

/// The variables live before one block.
pub type LVEntryAtLabel = HashSet<Variable>;

/// The variables live before each block: those of label `l` at index
/// `l - 1`.
pub type LVEntry = Vec<HashSet<Variable>>;

/// The variables that a block reads.
pub open spec fn gen_set(block: Block) -> Set<Variable> {
    match block {
        Block::Assignment(b) => b.expr.vars(),
        Block::Test(b) => b.expr.vars(),
        Block::Skip(_) => Set::empty(),
    }
}

/// The variables that a block overwrites whenever it runs.
pub open spec fn kill_set(block: Block) -> Set<Variable> {
    match block {
        Block::Assignment(b) => set![b.var],
        Block::Test(_) => Set::empty(),
        Block::Skip(_) => Set::empty(),
    }
}

/// The set that a family holds for the label `l`.
pub open spec fn at(f: Family, l: Label) -> Set<Variable> {
    f[l - 1]
}

/// The first equation: nothing is live where the program is left; elsewhere
/// a variable is live behind `l` if it is live before a successor of `l`.
pub open spec fn live_exit(p: Program, entry: Family, l: Label) -> Set<Variable> {
    if p.contents.finals().contains(l) {
        Set::empty()
    } else {
        Set::new(
            |v: Variable|
                exists|m: Label| #[trigger]
                    p.contents.flow().contains((l, m)) && at(entry, m).contains(v),
        )
    }
}

/// The second equation: a variable is live before `l` if the block reads
/// it, or if it is live behind `l` and the block does not overwrite it.
pub open spec fn live_entry(p: Program, exit: Family, l: Label) -> Set<Variable> {
    at(exit, l).difference(kill_set(p.block(l))).union(gen_set(p.block(l)))
}

/// The first equation at every label.
pub open spec fn exit_round(p: Program, entry: Family) -> Family {
    Seq::new(p.len as nat, |i: int| live_exit(p, entry, (i + 1) as Label))
}

/// The second equation at every label.
pub open spec fn entry_round(p: Program, exit: Family) -> Family {
    Seq::new(p.len as nat, |i: int| live_entry(p, exit, (i + 1) as Label))
}

/// The live variables of a program: for each label those before its block
/// and those behind it.
pub struct LiveSets {
    pub entry: Family,
    pub exit: Family,
}

impl LiveSets {
    /// Both families have a set for each of `n` labels.
    pub open spec fn covers(self, n: nat) -> bool {
        self.entry.len() == n && self.exit.len() == n
    }

    /// Each set of `self` is included in the set that `other` has in its
    /// place.
    pub open spec fn below(self, other: LiveSets) -> bool {
        crate::lattice::below(self.entry, other.entry) && crate::lattice::below(
            self.exit,
            other.exit,
        )
    }
}

/// One round of recomputation: the exit sets from the entry sets of `s`,
/// then the entry sets from those exit sets.
pub open spec fn round(p: Program, s: LiveSets) -> LiveSets {
    let exit = exit_round(p, s.entry);
    LiveSets { entry: entry_round(p, exit), exit }
}

/// `s` meets both equations at every label of `p`.
pub open spec fn satisfies_equations(p: Program, s: LiveSets) -> bool {
    &&& s.exit == exit_round(p, s.entry)
    &&& s.entry == entry_round(p, s.exit)
}

/// `s` meets the equations, and lies below everything to which a round
/// adds nothing: below every other solution, that is, and below whatever
/// lies above its own round.
pub open spec fn is_least_solution(p: Program, s: LiveSets) -> bool {
    &&& satisfies_equations(p, s)
    &&& forall|t: LiveSets| (#[trigger] round(p, t)).below(t) ==> s.below(t)
}

/// The result of an analysis: entry and exit sets for the labels `1..=len`,
/// the sets of label `l` at index `l - 1`.
#[derive(Clone, Debug, PartialEq, Eq)]
pub struct LVAnalysis {
    pub entry: LVEntry,
    pub exit: LVExit,
}

impl View for LVAnalysis {
    type V = LiveSets;

    open spec fn view(&self) -> LiveSets {
        LiveSets { entry: sets_of(self.entry@), exit: sets_of(self.exit@) }
    }
}

impl LVAnalysis {
    /// The analysis in which nothing is live anywhere, for `len` labels.
    pub fn new(len: usize) -> (r: Self)
        ensures
            r@ == (LiveSets { entry: bottom(len as nat), exit: bottom(len as nat) }),
    {
        LVAnalysis { entry: empty_sets(len), exit: empty_sets(len) }
    }

    /// The variables live before the block of `label`; `None` if the
    /// analysis has no such label.
    pub fn entry_at(&self, label: Label) -> (r: Option<&HashSet<Variable>>)
        ensures
            match r {
                Some(s) => 1 <= label <= self.entry.len() && s@ == at(self@.entry, label),
                None => !(1 <= label <= self.entry.len()),
            },
    {
        if 1 <= label && label <= self.entry.len() {
            Some(&self.entry[label - 1])
        } else {
            None
        }
    }

    /// The variables live behind the block of `label`; `None` if the
    /// analysis has no such label.
    pub fn exit_at(&self, label: Label) -> (r: Option<&HashSet<Variable>>)
        ensures
            match r {
                Some(s) => 1 <= label <= self.exit.len() && s@ == at(self@.exit, label),
                None => !(1 <= label <= self.exit.len()),
            },
    {
        if 1 <= label && label <= self.exit.len() {
            Some(&self.exit[label - 1])
        } else {
            None
        }
    }

    /// Whether two analyses hold the same sets for the same labels.
    pub fn same(&self, other: &LVAnalysis) -> (r: bool)
        ensures
            r == (self@ == other@),
    {
        same_family(&self.entry, &other.entry) && same_family(&self.exit, &other.exit)
    }
}

/// The variables that `block` reads.
pub fn gen_lv(block: Block) -> (r: HashSet<Variable>)
    ensures
        r@ == gen_set(block),
{
    match block {
        Block::Assignment(b) => b.expr.free_vars(),
        Block::Test(b) => b.expr.free_vars(),
        Block::Skip(_) => HashSet::new(),
    }
}

/// The variables that `block` overwrites.
pub fn kill_lv(block: Block) -> (r: HashSet<Variable>)
    ensures
        r@ == kill_set(block),
{
    let mut r: HashSet<Variable> = HashSet::new();
    match block {
        Block::Assignment(b) => {
            r.insert(b.var);
            assert(r@ =~= set![b.var]);
        },
        Block::Test(_) => {},
        Block::Skip(_) => {},
    }
    r
}

/// The first equation at `label`, over final labels and flow edges that
/// the caller has computed.
fn exit_from(
    finals: &Vec<Label>,
    edges: &Vec<(Label, Label)>,
    lv_entry: &LVEntry,
    label: Label,
) -> (r: HashSet<Variable>)
    requires
        forall|k: int| 0 <= k < edges.len() ==> 1 <= (#[trigger] edges@[k]).1 <= lv_entry.len(),
    ensures
        r@ == if finals@.to_set().contains(label) {
            Set::empty()
        } else {
            Set::new(
                |v: Variable|
                    exists|m: Label| #[trigger]
                        edges@.to_set().contains((label, m)) && at(sets_of(lv_entry@), m).contains(
                            v,
                        ),
            )
        },
{
    let mut r: HashSet<Variable> = HashSet::new();
    if holds_label(finals, label) {
        return r;
    }
    let ghost entry = sets_of(lv_entry@);
    let mut k: usize = 0;
    while k < edges.len()
        invariant
            k <= edges.len(),
            entry == sets_of(lv_entry@),
            forall|k: int| 0 <= k < edges.len() ==> 1 <= (#[trigger] edges@[k]).1 <= lv_entry.len(),
            forall|v: Variable| #[trigger]
                r@.contains(v) <==> exists|j: int|
                    0 <= j < k && (#[trigger] edges@[j]).0 == label && at(entry, edges@[j].1).contains(
                        v,
                    ),
        decreases edges.len() - k,
    {
        let edge = edges[k];
        let ghost before = r@;
        if edge.0 == label {
            union_into(&mut r, &lv_entry[edge.1 - 1]);
        }
        proof {
            assert forall|v: Variable| #[trigger] r@.contains(v) implies exists|j: int|
                0 <= j < k + 1 && (#[trigger] edges@[j]).0 == label && at(entry, edges@[j].1).contains(
                    v,
                ) by {
                if before.contains(v) {
                    let j = choose|j: int|
                        0 <= j < k && (#[trigger] edges@[j]).0 == label && at(
                            entry,
                            edges@[j].1,
                        ).contains(v);
                    assert(0 <= j < k + 1 && edges@[j].0 == label);
                } else {
                    assert(edges@[k as int].0 == label);
                }
            }
        }
        k += 1;
    }
    proof {
        let goal = Set::new(
            |v: Variable|
                exists|m: Label| #[trigger]
                    edges@.to_set().contains((label, m)) && at(entry, m).contains(v),
        );
        assert forall|v: Variable| r@.contains(v) <==> goal.contains(v) by {
            if r@.contains(v) {
                let j = choose|j: int|
                    0 <= j < k && (#[trigger] edges@[j]).0 == label && at(entry, edges@[j].1).contains(
                        v,
                    );
                assert(edges@.contains(edges@[j]));
                assert(edges@.to_set().contains((label, edges@[j].1)));
            }
            if goal.contains(v) {
                let m = choose|m: Label| #[trigger]
                    edges@.to_set().contains((label, m)) && at(entry, m).contains(v);
                assert(edges@.contains((label, m)));
                let j = choose|j: int| 0 <= j < edges@.len() && edges@[j] == (label, m);
                assert(edges@[j].0 == label && at(entry, edges@[j].1).contains(v));
            }
        }
        assert(r@ =~= goal);
    }
    r
}

/// The final labels and the flow edges of `program`.
fn finals_and_flow(program: &Program) -> (r: (Vec<Label>, Vec<(Label, Label)>))
    requires
        program.wf(),
    ensures
        r.0@.to_set() == program.contents.finals(),
        r.1@.to_set() == program.contents.flow(),
        forall|k: int| 0 <= k < r.1.len() ==> 1 <= (#[trigger] r.1@[k]).1 <= program.len,
{
    let finals = crate::flow::final_labels(&program.contents);
    let edges = crate::flow::flow(&program.contents);
    proof {
        lemma_flow_in_range(program.contents, 1);
        assert forall|k: int| 0 <= k < edges.len() implies 1 <= (#[trigger] edges@[k]).1
            <= program.len by {
            assert(edges@.contains(edges@[k]));
            assert(program.contents.flow().contains(edges@[k]));
        }
    }
    (finals, edges)
}

/// The variables live behind the block of `label`, given those live before
/// each block.
pub fn lv_exit_at(program: &Program, lv_entry: &LVEntry, label: Label) -> (r: LVExitAtLabel)
    requires
        program.wf(),
        lv_entry.len() == program.len,
        1 <= label <= program.len,
    ensures
        r@ == live_exit(*program, sets_of(lv_entry@), label),
{
    let (finals, edges) = finals_and_flow(program);
    exit_from(&finals, &edges, lv_entry, label)
}

/// The variables live behind each block, given those live before each.
pub fn lv_exit(program: &Program, lv_entry: &LVEntry) -> (r: LVExit)
    requires
        program.wf(),
        lv_entry.len() == program.len,
    ensures
        r.len() == program.len,
        sets_of(r@) == exit_round(*program, sets_of(lv_entry@)),
{
    let (finals, edges) = finals_and_flow(program);
    let mut r: LVExit = Vec::new();
    let mut i: usize = 0;
    while i < program.len
        invariant
            i <= program.len,
            r.len() == i,
            finals@.to_set() == program.contents.finals(),
            edges@.to_set() == program.contents.flow(),
            forall|k: int| 0 <= k < edges.len() ==> 1 <= (#[trigger] edges@[k]).1 <= lv_entry.len(),
            forall|j: int|
                0 <= j < i ==> r@[j]@ == live_exit(*program, sets_of(lv_entry@), (j + 1) as Label),
        decreases program.len - i,
    {
        let s = exit_from(&finals, &edges, lv_entry, i + 1);
        r.push(s);
        i += 1;
    }
    assert(sets_of(r@) =~= exit_round(*program, sets_of(lv_entry@)));
    r
}

/// The variables live before the block of `label`, given those live behind
/// each block.
pub fn lv_entry_at(program: &Program, lv_exit: &LVExit, label: Label) -> (r: LVEntryAtLabel)
    requires
        program.wf(),
        lv_exit.len() == program.len,
        1 <= label <= program.len,
    ensures
        r@ == live_entry(*program, sets_of(lv_exit@), label),
{
    let block = program.at(label).unwrap();
    let killed = kill_lv(block.clone());
    let read = gen_lv(block);
    let mut r = difference(&lv_exit[label - 1], &killed);
    union_into(&mut r, &read);
    r
}

/// The variables live before each block, given those live behind each.
pub fn lv_entry(program: &Program, lv_exit: &LVExit) -> (r: LVEntry)
    requires
        program.wf(),
        lv_exit.len() == program.len,
    ensures
        r.len() == program.len,
        sets_of(r@) == entry_round(*program, sets_of(lv_exit@)),
{
    let mut r: LVEntry = Vec::new();
    let mut i: usize = 0;
    while i < program.len
        invariant
            i <= program.len,
            r.len() == i,
            program.wf(),
            lv_exit.len() == program.len,
            forall|j: int|
                0 <= j < i ==> r@[j]@ == live_entry(*program, sets_of(lv_exit@), (j + 1) as Label),
        decreases program.len - i,
    {
        let s = lv_entry_at(program, lv_exit, i + 1);
        r.push(s);
        i += 1;
    }
    assert(sets_of(r@) =~= entry_round(*program, sets_of(lv_exit@)));
    r
}

} // verus!
