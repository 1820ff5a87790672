//! What is proved of the equations and of the two solvers.
//!
//! Both rounds are monotone, a program has one least solution, and another
//! round changes nothing in a solution. The worklist solver never finds
//! less than chaotic iteration. It finds the same exactly where what goes
//! on behind a final label adds nothing (`final_flow_is_absorbed`), as in
//! every program in which no flow edge leaves a final label. A program that
//! ends in a `while` has such an edge, from the guard into the body, and
//! there the worklist solver may find more: in `while x > 0 do y := z` it
//! has `z` live behind the assignment, chaotic iteration has not.

use crate::algorithm::mfp::{
    is_closed, least_closed, lemma_least_closed_is_below, lemma_least_closed_is_closed, presented,
};
use crate::analysis::{
    at, entry_round, exit_round, gen_set, is_least_solution, kill_set, live_entry, live_exit,
    round, satisfies_equations, LiveSets,
};
use crate::expression::{Label, Variable};
use crate::flow::{lemma_flow_in_range, lemma_no_flow_between_finals};
use crate::lattice::{below, lemma_below_antisymmetric, lemma_below_transitive, Family};
use crate::program::Program;
use vstd::prelude::*;

verus! {

/// More live variables before the blocks give more behind them.
pub proof fn lemma_exit_round_monotone(p: Program, a: Family, b: Family)
    requires
        p.wf(),
        a.len() == p.len,
        below(a, b),
    ensures
        below(exit_round(p, a), exit_round(p, b)),
{
    lemma_flow_in_range(p.contents, 1);
    assert forall|i: int| 0 <= i < p.len implies #[trigger] exit_round(p, a)[i].subset_of(
        exit_round(p, b)[i],
    ) by {
        let l = (i + 1) as Label;
        assert forall|v: Variable| live_exit(p, a, l).contains(v) implies live_exit(
            p,
            b,
            l,
        ).contains(v) by {
            let m = choose|m: Label| #[trigger]
                p.contents.flow().contains((l, m)) && at(a, m).contains(v);
            assert(a[m - 1].subset_of(b[m - 1]));
            assert(p.contents.flow().contains((l, m)) && at(b, m).contains(v));
        }
    }
}

/// More live variables behind the blocks give more before them.
pub proof fn lemma_entry_round_monotone(p: Program, a: Family, b: Family)
    requires
        a.len() == p.len,
        below(a, b),
    ensures
        below(entry_round(p, a), entry_round(p, b)),
{
    assert forall|i: int| 0 <= i < p.len implies #[trigger] entry_round(p, a)[i].subset_of(
        entry_round(p, b)[i],
    ) by {
        assert(a[i].subset_of(b[i]));
    }
}

/// A round keeps the order of what it starts from.
pub proof fn lemma_round_monotone(p: Program, s: LiveSets, t: LiveSets)
    requires
        p.wf(),
        s.entry.len() == p.len,
        below(s.entry, t.entry),
    ensures
        round(p, s).below(round(p, t)),
{
    lemma_exit_round_monotone(p, s.entry, t.entry);
    lemma_entry_round_monotone(p, exit_round(p, s.entry), exit_round(p, t.entry));
}

/// Another round changes nothing in a solution, and what a round does not
/// change is a solution.
pub proof fn lemma_solution_is_fixed(p: Program, s: LiveSets)
    ensures
        satisfies_equations(p, s) <==> round(p, s) == s,
{
}

/// The least solution lies below every solution.
pub proof fn lemma_least_solution_is_below(p: Program, s: LiveSets, t: LiveSets)
    requires
        is_least_solution(p, s),
        satisfies_equations(p, t),
    ensures
        s.below(t),
{
    assert(round(p, t) == t);
    assert(round(p, t).below(t)) by {
        assert forall|i: int| 0 <= i < t.entry.len() implies #[trigger] t.entry[i].subset_of(
            t.entry[i],
        ) by {}
        assert forall|i: int| 0 <= i < t.exit.len() implies #[trigger] t.exit[i].subset_of(
            t.exit[i],
        ) by {}
    }
}

/// A program has at most one least solution.
pub proof fn lemma_least_solution_unique(p: Program, s: LiveSets, t: LiveSets)
    requires
        is_least_solution(p, s),
        is_least_solution(p, t),
    ensures
        s == t,
{
    lemma_least_solution_is_below(p, s, t);
    lemma_least_solution_is_below(p, t, s);
    lemma_below_antisymmetric(s.entry, t.entry);
    lemma_below_antisymmetric(s.exit, t.exit);
}

/// Where the second equation holds, a variable that a block reads is live
/// before the block, whether the block overwrites it or not.
pub proof fn lemma_read_is_live(p: Program, s: LiveSets, l: Label)
    requires
        s.entry == entry_round(p, s.exit),
        1 <= l <= p.len,
    ensures
        gen_set(p.block(l)).subset_of(at(s.entry, l)),
        gen_set(p.block(l)).difference(kill_set(p.block(l))).subset_of(at(s.entry, l)),
{
    assert(s.entry[l - 1] == live_entry(p, s.exit, ((l - 1) + 1) as Label));
}

/// In a program with isolated exits, the exit sets that the first
/// equation gives for `t` are closed under the reversed flow, if a round
/// adds nothing to `t`.
pub proof fn lemma_round_is_closed(p: Program, t: LiveSets)
    requires
        p.wf(),
        p.has_isolated_exits(),
        round(p, t).below(t),
    ensures
        is_closed(p, exit_round(p, t.entry)),
{
    let exit = exit_round(p, t.entry);
    lemma_flow_in_range(p.contents, 1);
    assert forall|e: (Label, Label)| #[trigger] p.contents.flow_r().contains(e) implies live_entry(
        p,
        exit,
        e.0,
    ).subset_of(at(exit, e.1)) by {
        assert(p.contents.flow().contains((e.1, e.0)));
        assert(round(p, t).entry[e.0 - 1] == live_entry(p, exit, ((e.0 - 1) + 1) as Label));
        assert(round(p, t).entry[e.0 - 1].subset_of(t.entry[e.0 - 1]));
        assert(exit[e.1 - 1] == live_exit(p, t.entry, ((e.1 - 1) + 1) as Label));
        assert forall|v: Variable| live_entry(p, exit, e.0).contains(v) implies at(
            exit,
            e.1,
        ).contains(v) by {
            assert(p.contents.flow().contains((e.1, e.0)) && at(t.entry, e.0).contains(v));
        }
    }
}

/// One round over the entry sets of the least closed family stays below
/// that family.
pub proof fn lemma_round_of_least_closed_is_below(p: Program)
    requires
        p.wf(),
    ensures
        below(exit_round(p, entry_round(p, least_closed(p))), least_closed(p)),
{
    let least = least_closed(p);
    let entry = entry_round(p, least);
    lemma_flow_in_range(p.contents, 1);
    lemma_least_closed_is_closed(p);
    assert forall|i: int| 0 <= i < p.len implies #[trigger] exit_round(p, entry)[i].subset_of(
        least[i],
    ) by {
        let l = (i + 1) as Label;
        assert forall|v: Variable| live_exit(p, entry, l).contains(v) implies least[i].contains(
            v,
        ) by {
            let m = choose|m: Label| #[trigger]
                p.contents.flow().contains((l, m)) && at(entry, m).contains(v);
            assert(entry[m - 1] == live_entry(p, least, ((m - 1) + 1) as Label));
            assert(p.contents.flow_r().contains((m, l)));
            assert(live_entry(p, least, m).subset_of(at(least, l)));
        }
    }
}

/// In a program with isolated exits, one round over the entry sets of the
/// least closed family gives that family back.
pub proof fn lemma_least_closed_is_fixed(p: Program)
    requires
        p.wf(),
        p.has_isolated_exits(),
    ensures
        exit_round(p, entry_round(p, least_closed(p))) == least_closed(p),
{
    let least = least_closed(p);
    let first = LiveSets { entry: entry_round(p, least), exit: least };
    let exit = exit_round(p, first.entry);
    lemma_round_of_least_closed_is_below(p);
    lemma_entry_round_monotone(p, exit, least);
    assert(round(p, first).below(first));
    lemma_round_is_closed(p, first);
    lemma_least_closed_is_below(p, exit);
    lemma_below_antisymmetric(exit, least);
}

/// In a program with isolated exits, what the worklist solver hands out is
/// the least solution of the equations.
pub proof fn lemma_worklist_result_is_least_solution(p: Program)
    requires
        p.wf(),
        p.has_isolated_exits(),
    ensures
        is_least_solution(p, presented(p, least_closed(p))),
        presented(p, least_closed(p)).exit == least_closed(p),
{
    let least = least_closed(p);
    let r = presented(p, least);
    lemma_least_closed_is_fixed(p);
    assert(r.exit == least);
    assert(r.entry == entry_round(p, least));
    assert forall|t: LiveSets| (#[trigger] round(p, t)).below(t) implies r.below(t) by {
        let exit = exit_round(p, t.entry);
        lemma_round_is_closed(p, t);
        lemma_least_closed_is_below(p, exit);
        lemma_entry_round_monotone(p, least, exit);
        lemma_below_transitive(least, exit, t.exit);
        lemma_below_transitive(entry_round(p, least), entry_round(p, exit), t.entry);
    }
}

/// Whatever the program, a round adds nothing to what the worklist solver
/// hands out: each of its sets holds at least what the equations ask for.
pub proof fn lemma_round_adds_nothing_to_worklist_result(p: Program)
    requires
        p.wf(),
    ensures
        round(p, presented(p, least_closed(p))).below(presented(p, least_closed(p))),
{
    let least = least_closed(p);
    let first = entry_round(p, least);
    let w = presented(p, least);
    lemma_round_of_least_closed_is_below(p);
    lemma_entry_round_monotone(p, w.exit, least);
    lemma_exit_round_monotone(p, w.entry, first);
    lemma_entry_round_monotone(p, exit_round(p, w.entry), w.exit);
}

/// Whatever the program, the worklist solver leaves out nothing that
/// chaotic iteration finds live.
pub proof fn lemma_chaotic_below_worklist(p: Program, chaotic: LiveSets, worklist: LiveSets)
    requires
        p.wf(),
        is_least_solution(p, chaotic),
        worklist == presented(p, least_closed(p)),
    ensures
        chaotic.below(worklist),
{
    lemma_round_adds_nothing_to_worklist_result(p);
}

/// What goes on behind a final label adds nothing to `s`: where an edge
/// leads from `a` to a final label `l` and another from `l` on to `m`, what
/// is live before `m` and not overwritten by the block of `l` is live behind
/// `a`. This holds of every `s` where the program has isolated exits.
pub open spec fn final_flow_is_absorbed(p: Program, s: LiveSets) -> bool {
    forall|a: Label, l: Label, m: Label|
        #![trigger p.contents.flow().contains((a, l)), p.contents.flow().contains((l, m))]
        p.contents.finals().contains(l) && p.contents.flow().contains((a, l))
            && p.contents.flow().contains((l, m)) ==> at(s.entry, m).difference(
            kill_set(p.block(l)),
        ).subset_of(at(s.exit, a))
}

/// The first equation without its exception for final labels: what is live
/// before a successor of `l`.
pub open spec fn flow_exit(p: Program, entry: Family, l: Label) -> Set<Variable> {
    Set::new(
        |v: Variable|
            exists|m: Label| #[trigger]
                p.contents.flow().contains((l, m)) && at(entry, m).contains(v),
    )
}

/// `flow_exit` at every label.
pub open spec fn flow_exit_round(p: Program, entry: Family) -> Family {
    Seq::new(p.len as nat, |i: int| flow_exit(p, entry, (i + 1) as Label))
}

/// Where what goes on behind a final label adds nothing to a solution, the
/// sets that its entry sets give along the flow are closed under the
/// reversed flow.
proof fn lemma_absorbing_solution_is_closed(p: Program, s: LiveSets)
    requires
        p.wf(),
        satisfies_equations(p, s),
        final_flow_is_absorbed(p, s),
    ensures
        is_closed(p, flow_exit_round(p, s.entry)),
{
    let x = flow_exit_round(p, s.entry);
    lemma_flow_in_range(p.contents, 1);
    lemma_no_flow_between_finals(p.contents, 1);
    assert forall|e: (Label, Label)| #[trigger] p.contents.flow_r().contains(e) implies live_entry(
        p,
        x,
        e.0,
    ).subset_of(at(x, e.1)) by {
        let l = e.0;
        let a = e.1;
        assert(p.contents.flow().contains((a, l)));
        assert(x[l - 1] == flow_exit(p, s.entry, ((l - 1) + 1) as Label));
        assert(x[a - 1] == flow_exit(p, s.entry, ((a - 1) + 1) as Label));
        assert(s.entry[l - 1] == live_entry(p, s.exit, ((l - 1) + 1) as Label));
        assert(s.exit[l - 1] == live_exit(p, s.entry, ((l - 1) + 1) as Label));
        assert(s.exit[a - 1] == live_exit(p, s.entry, ((a - 1) + 1) as Label));
        assert forall|v: Variable| live_entry(p, x, l).contains(v) implies at(x, a).contains(
            v,
        ) by {
            if at(s.entry, l).contains(v) {
                assert(p.contents.flow().contains((a, l)) && at(s.entry, l).contains(v));
            } else {
                assert(p.contents.finals().contains(l));
                assert(!p.contents.finals().contains(a));
                let m = choose|m: Label| #[trigger]
                    p.contents.flow().contains((l, m)) && at(s.entry, m).contains(v);
                assert(p.contents.flow().contains((a, l)) && p.contents.flow().contains((l, m)));
                assert(at(s.entry, m).difference(kill_set(p.block(l))).subset_of(at(s.exit, a)));
                assert(at(s.exit, a).contains(v));
            }
        }
    }
}

/// The two solvers hand out the same entry and exit sets for every label
/// exactly where what goes on behind a final label adds nothing to what
/// chaotic iteration finds.
pub proof fn lemma_solvers_agree_exactly(p: Program, chaotic: LiveSets, worklist: LiveSets)
    requires
        p.wf(),
        is_least_solution(p, chaotic),
        worklist == presented(p, least_closed(p)),
    ensures
        chaotic == worklist <==> final_flow_is_absorbed(p, chaotic),
{
    let least = least_closed(p);
    lemma_flow_in_range(p.contents, 1);
    lemma_chaotic_below_worklist(p, chaotic, worklist);
    lemma_round_of_least_closed_is_below(p);
    lemma_least_closed_is_closed(p);
    if final_flow_is_absorbed(p, chaotic) {
        let x = flow_exit_round(p, chaotic.entry);
        lemma_absorbing_solution_is_closed(p, chaotic);
        lemma_least_closed_is_below(p, x);
        lemma_entry_round_monotone(p, least, x);
        lemma_exit_round_monotone(p, entry_round(p, least), entry_round(p, x));
        assert forall|i: int| 0 <= i < p.len implies #[trigger] worklist.exit[i].subset_of(
            chaotic.exit[i],
        ) by {
            let l = (i + 1) as Label;
            assert(worklist.exit[i].subset_of(exit_round(p, entry_round(p, x))[i]));
            assert(chaotic.exit[i] == live_exit(p, chaotic.entry, l));
            assert(x[i] == flow_exit(p, chaotic.entry, l));
            assert forall|v: Variable|
                live_exit(p, entry_round(p, x), l).contains(v) implies chaotic.exit[i].contains(
                v,
            ) by {
                let m = choose|m: Label| #[trigger]
                    p.contents.flow().contains((l, m)) && at(entry_round(p, x), m).contains(v);
                assert(entry_round(p, x)[m - 1] == live_entry(p, x, ((m - 1) + 1) as Label));
                assert(p.contents.flow_r().contains((m, l)));
                assert(live_entry(p, x, m).subset_of(at(x, l)));
            }
        }
        assert(below(worklist.exit, chaotic.exit));
        lemma_entry_round_monotone(p, worklist.exit, chaotic.exit);
        lemma_below_antisymmetric(chaotic.entry, worklist.entry);
        lemma_below_antisymmetric(chaotic.exit, worklist.exit);
    }
    if chaotic == worklist {
        lemma_no_flow_between_finals(p.contents, 1);
        let first = entry_round(p, least);
        lemma_entry_round_monotone(p, worklist.exit, least);
        assert forall|a: Label, l: Label, m: Label|
            #![trigger p.contents.flow().contains((a, l)), p.contents.flow().contains((l, m))]
            p.contents.finals().contains(l) && p.contents.flow().contains((a, l))
                && p.contents.flow().contains((l, m)) implies at(chaotic.entry, m).difference(
            kill_set(p.block(l)),
        ).subset_of(at(chaotic.exit, a)) by {
            assert(!p.contents.finals().contains(a));
            assert(worklist.exit[a - 1] == live_exit(p, first, ((a - 1) + 1) as Label));
            assert(first[l - 1] == live_entry(p, least, ((l - 1) + 1) as Label));
            assert(worklist.entry[m - 1].subset_of(first[m - 1]));
            assert(first[m - 1] == live_entry(p, least, ((m - 1) + 1) as Label));
            assert(p.contents.flow_r().contains((m, l)));
            assert(live_entry(p, least, m).subset_of(at(least, l)));
            assert forall|v: Variable|
                at(chaotic.entry, m).difference(kill_set(p.block(l))).contains(
                    v,
                ) implies at(chaotic.exit, a).contains(v) by {
                assert(at(least, l).contains(v));
                assert(live_entry(p, least, l).contains(v));
                assert(p.contents.flow().contains((a, l)) && at(first, l).contains(v));
            }
        }
    }
}

/// In a program with isolated exits, chaotic iteration and the worklist
/// solver hand out the same entry and exit sets for every label.
pub proof fn lemma_solvers_agree(p: Program, chaotic: LiveSets, worklist: LiveSets)
    requires
        p.wf(),
        p.has_isolated_exits(),
        is_least_solution(p, chaotic),
        worklist == presented(p, least_closed(p)),
    ensures
        chaotic == worklist,
{
    assert(final_flow_is_absorbed(p, chaotic));
    lemma_solvers_agree_exactly(p, chaotic, worklist);
}

/// In a program with isolated exits, the last step of the worklist solver,
/// run on the exit sets that it has handed out, hands the same out again,
/// and so does one more round.
pub proof fn lemma_worklist_result_is_fixed(p: Program)
    requires
        p.wf(),
        p.has_isolated_exits(),
    ensures
        presented(p, presented(p, least_closed(p)).exit) == presented(p, least_closed(p)),
        round(p, presented(p, least_closed(p))) == presented(p, least_closed(p)),
{
    lemma_worklist_result_is_least_solution(p);
}

/// A program of one block has no flow and leaves at label 1; in its least
/// solution nothing is live behind the block, and before it what it reads.
pub proof fn lemma_single_block(p: Program, s: LiveSets)
    requires
        p.wf(),
        p.contents is Atom,
        is_least_solution(p, s),
    ensures
        p.len == 1,
        p.contents.flow() == Set::<(Label, Label)>::empty(),
        p.contents.finals() == set![1usize],
        p.has_isolated_exits(),
        at(s.exit, 1) == Set::<Variable>::empty(),
        at(s.entry, 1) == gen_set(p.block(1)),
{
    lemma_flow_in_range(p.contents, 1);
    assert(s.exit[0] == live_exit(p, s.entry, (0 + 1) as Label));
    assert(s.entry[0] == live_entry(p, s.exit, (0 + 1) as Label));
    assert(p.contents.finals().contains(1));
    assert(at(s.entry, 1) =~= gen_set(p.block(1)));
}

} // verus!
