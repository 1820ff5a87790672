//! The worklist solver: it keeps one set for each label and a list of the
//! reversed flow edges that it has to look at again.

use crate::analysis::{
    at, entry_round, is_least_solution, live_entry, lv_entry, lv_entry_at, lv_exit, round,
    LVAnalysis, LVExit, LiveSets,
};
use crate::expression::{Label, Variable};
use crate::flow::lemma_flow_in_range;
use crate::fixpoint::{
    lemma_round_adds_nothing_to_worklist_result, lemma_worklist_result_is_least_solution,
};
use crate::lattice::{
    below, copy_set, empty_sets, is_subset, lemma_below_antisymmetric, lemma_weight_bounded,
    lemma_weight_strict, sets_of, union_into, weight, Family,
};
use crate::program::Program;
use vstd::prelude::*;

verus! {

/// `ana` is closed under the reversed flow: along every edge `(l, l')` of
/// it, what is live before the block of `l` is in the set of `l'`.
pub open spec fn is_closed(p: Program, ana: Family) -> bool {
    &&& ana.len() == p.len
    &&& forall|e: (Label, Label)| #[trigger]
        p.contents.flow_r().contains(e) ==> live_entry(p, ana, e.0).subset_of(at(ana, e.1))
}

/// The least closed family: a variable is in the set of a label if it is
/// there in every closed family.
pub open spec fn least_closed(p: Program) -> Family {
    Seq::new(
        p.len as nat,
        |i: int|
            Set::new(|v: Variable| forall|a: Family| #[trigger] is_closed(p, a) ==> a[i].contains(v)),
    )
}

/// What the solver hands out for the family `ana` that it ends with: the
/// entry sets that the second equation gives for `ana`, and one round from
/// them.
pub open spec fn presented(p: Program, ana: Family) -> LiveSets {
    round(p, LiveSets { entry: entry_round(p, ana), exit: ana })
}

/// The least closed family lies below every closed family.
pub proof fn lemma_least_closed_is_below(p: Program, a: Family)
    requires
        is_closed(p, a),
    ensures
        below(least_closed(p), a),
{
    assert forall|i: int| 0 <= i < p.len implies #[trigger] least_closed(p)[i].subset_of(a[i]) by {
    }
}

/// The least closed family is closed.
pub proof fn lemma_least_closed_is_closed(p: Program)
    requires
        p.wf(),
    ensures
        is_closed(p, least_closed(p)),
{
    let least = least_closed(p);
    lemma_flow_in_range(p.contents, 1);
    assert forall|e: (Label, Label)| #[trigger] p.contents.flow_r().contains(e) implies live_entry(
        p,
        least,
        e.0,
    ).subset_of(at(least, e.1)) by {
        assert(p.contents.flow().contains((e.1, e.0)));
        assert forall|v: Variable| live_entry(p, least, e.0).contains(v) implies at(
            least,
            e.1,
        ).contains(v) by {
            assert forall|a: Family| #[trigger] is_closed(p, a) implies a[e.1 - 1].contains(v) by {
                lemma_least_closed_is_below(p, a);
                assert(least[e.0 - 1].subset_of(a[e.0 - 1]));
                assert(live_entry(p, a, e.0).contains(v));
                assert(live_entry(p, a, e.0).subset_of(at(a, e.1)));
            }
        }
    }
}

/// Puts the edges of `edges` that leave `source` at the front of
/// `work_list`, the last of them first.
fn enqueue_from(work_list: &mut Vec<(Label, Label)>, edges: &Vec<(Label, Label)>, source: Label)
    ensures
        forall|e: (Label, Label)|
            #[trigger] final(work_list)@.contains(e) <==> old(work_list)@.contains(e) || (
            edges@.contains(e) && e.0 == source),
{
    let mut i: usize = 0;
    while i < edges.len()
        invariant
            i <= edges.len(),
            forall|e: (Label, Label)|
                #[trigger] work_list@.contains(e) <==> old(work_list)@.contains(e) || (
                edges@.take(i as int).contains(e) && e.0 == source),
        decreases edges.len() - i,
    {
        let edge = edges[i];
        let ghost before = work_list@;
        if edge.0 == source {
            work_list.insert(0, edge);
        }
        proof {
            assert(edges@.take(i + 1) =~= edges@.take(i as int).push(edge));
            assert forall|e: (Label, Label)| #[trigger]
                work_list@.contains(e) <==> old(work_list)@.contains(e) || (edges@.take(
                    i + 1,
                ).contains(e) && e.0 == source) by {
                lemma_contains_push(edges@.take(i as int), edge, e);
                if edge.0 == source {
                    lemma_contains_insert_front(before, edge, e);
                }
            }
        }
        i += 1;
    }
    assert(edges@.take(edges.len() as int) =~= edges@);
}

proof fn lemma_contains_push(s: Seq<(Label, Label)>, x: (Label, Label), e: (Label, Label))
    ensures
        s.push(x).contains(e) <==> s.contains(e) || e == x,
{
    if s.contains(e) {
        let j = choose|j: int| 0 <= j < s.len() && s[j] == e;
        assert(s.push(x)[j] == e);
    }
    if e == x {
        assert(s.push(x)[s.len() as int] == e);
    }
}

proof fn lemma_contains_insert_front(s: Seq<(Label, Label)>, x: (Label, Label), e: (Label, Label))
    ensures
        s.insert(0, x).contains(e) <==> s.contains(e) || e == x,
{
    if s.contains(e) {
        let j = choose|j: int| 0 <= j < s.len() && s[j] == e;
        assert(s.insert(0, x)[j + 1] == e);
    }
    if e == x {
        assert(s.insert(0, x)[0] == e);
    }
    if s.insert(0, x).contains(e) {
        let j = choose|j: int| 0 <= j < s.insert(0, x).len() && s.insert(0, x)[j] == e;
        if j > 0 {
            assert(s[j - 1] == e);
        }
    }
}

proof fn lemma_contains_remove_front(s: Seq<(Label, Label)>, e: (Label, Label))
    requires
        s.len() > 0,
    ensures
        s.contains(e) <==> s.remove(0).contains(e) || e == s[0],
{
    if s.contains(e) {
        let j = choose|j: int| 0 <= j < s.len() && s[j] == e;
        if j > 0 {
            assert(s.remove(0)[j - 1] == e);
        }
    }
    if s.remove(0).contains(e) {
        let j = choose|j: int| 0 <= j < s.remove(0).len() && s.remove(0)[j] == e;
        assert(s[j + 1] == e);
    }
}

fn copy_edges(edges: &Vec<(Label, Label)>) -> (r: Vec<(Label, Label)>)
    ensures
        r@ == edges@,
{
    let mut r: Vec<(Label, Label)> = Vec::new();
    let mut i: usize = 0;
    while i < edges.len()
        invariant
            i <= edges.len(),
            r@ == edges@.take(i as int),
        decreases edges.len() - i,
    {
        r.push(edges[i]);
        assert(edges@.take(i + 1) =~= edges@.take(i as int).push(edges@[i as int]));
        i += 1;
    }
    assert(edges@.take(edges.len() as int) =~= edges@);
    r
}

/// The least family that is closed under the reversed flow of `program`.
///
/// The work list starts with every reversed edge, in the order of `flow_r`.
/// An edge `(l, l')` is taken from the front; if what is live before the
/// block of `l` is not yet in the set of `l'`, it is added there, and the
/// edges that leave `l'` go back to the front.
pub fn solve(program: &Program) -> (ana: LVExit)
    requires
        program.wf(),
    ensures
        ana.len() == program.len,
        sets_of(ana@) == least_closed(*program),
{
    let flow = crate::flow::flow_r(&program.contents);
    let mut work_list: Vec<(Label, Label)> = copy_edges(&flow);
    let mut ana: LVExit = empty_sets(program.len);
    proof {
        lemma_flow_in_range(program.contents, 1);
        lemma_least_closed_is_closed(*program);
        lemma_weight_bounded(sets_of(ana@));
    }
    while work_list.len() > 0
        invariant
            program.wf(),
            ana.len() == program.len,
            flow@.to_set() == program.contents.flow_r(),
            below(sets_of(ana@), least_closed(*program)),
            is_closed(*program, least_closed(*program)),
            forall|e: (Label, Label)| #[trigger]
                work_list@.contains(e) ==> program.contents.flow_r().contains(e),
            forall|e: (Label, Label)| #[trigger]
                program.contents.flow_r().contains(e) ==> work_list@.contains(e) || live_entry(
                    *program,
                    sets_of(ana@),
                    e.0,
                ).subset_of(at(sets_of(ana@), e.1)),
            forall|e: (Label, Label)| #[trigger]
                program.contents.flow().contains(e) ==> 1 <= e.0 <= program.len && 1 <= e.1
                    <= program.len,
            weight(sets_of(ana@)) <= 256 * program.len,
        decreases 256 * program.len - weight(sets_of(ana@)), work_list.len(),
    {
        let ghost old_list = work_list@;
        let ghost old_ana = sets_of(ana@);
        let (l, l_p) = work_list.remove(0);
        proof {
            assert(old_list.contains(old_list[0]));
            assert(program.contents.flow_r().contains((l, l_p)));
            assert(program.contents.flow().contains((l_p, l)));
            assert forall|e: (Label, Label)| #[trigger]
                old_list.contains(e) <==> work_list@.contains(e) || e == (l, l_p) by {
                lemma_contains_remove_front(old_list, e);
            }
        }
        let a = lv_entry_at(program, &ana, l);
        if !is_subset(&a, &ana[l_p - 1]) {
            let mut joined = copy_set(&ana[l_p - 1]);
            union_into(&mut joined, &a);
            ana[l_p - 1] = joined;
            let ghost mid_list = work_list@;
            enqueue_from(&mut work_list, &flow, l_p);
            proof {
                let new_ana = sets_of(ana@);
                let least = least_closed(*program);
                let v = choose|v: Variable| a@.contains(v) && !old_ana[l_p - 1].contains(v);
                assert(new_ana[l_p - 1] =~= old_ana[l_p - 1].union(a@));
                assert forall|i: int| 0 <= i < old_ana.len() implies #[trigger] old_ana[i].subset_of(
                    new_ana[i],
                ) by {
                    if i != l_p - 1 {
                        assert(new_ana[i] == old_ana[i]);
                    }
                }
                assert(below(old_ana, new_ana));
                lemma_weight_strict(old_ana, new_ana, l_p - 1, v);
                lemma_weight_bounded(new_ana);
                assert forall|i: int| 0 <= i < new_ana.len() implies #[trigger] new_ana[i].subset_of(
                    least[i],
                ) by {
                    assert(old_ana[i].subset_of(least[i]));
                    if i == l_p - 1 {
                        assert(old_ana[l - 1].subset_of(least[l - 1]));
                        assert(a@.subset_of(live_entry(*program, least, l)));
                        assert(live_entry(*program, least, l).subset_of(at(least, l_p)));
                    } else {
                        assert(new_ana[i] == old_ana[i]);
                    }
                }
                assert forall|e: (Label, Label)| #[trigger]
                    program.contents.flow_r().contains(e) implies work_list@.contains(e)
                    || live_entry(*program, new_ana, e.0).subset_of(at(new_ana, e.1)) by {
                    assert(program.contents.flow().contains((e.1, e.0)));
                    if e.0 == l_p {
                        assert(flow@.to_set().contains(e));
                        assert(flow@.contains(e));
                    } else {
                        assert(new_ana[e.0 - 1] == old_ana[e.0 - 1]);
                        assert(live_entry(*program, new_ana, e.0) == live_entry(
                            *program,
                            old_ana,
                            e.0,
                        ));
                        assert(old_ana[e.1 - 1].subset_of(new_ana[e.1 - 1]));
                        if e != (l, l_p) && old_list.contains(e) {
                            assert(mid_list.contains(e));
                        }
                    }
                }
                assert forall|e: (Label, Label)| #[trigger] work_list@.contains(e) implies
                    program.contents.flow_r().contains(e) by {
                    if mid_list.contains(e) {
                        assert(old_list.contains(e));
                    } else {
                        assert(flow@.to_set().contains(e));
                    }
                }
            }
        } else {
            proof {
                assert(sets_of(ana@) == old_ana);
                assert forall|e: (Label, Label)| #[trigger]
                    program.contents.flow_r().contains(e) implies work_list@.contains(e)
                    || live_entry(*program, old_ana, e.0).subset_of(at(old_ana, e.1)) by {
                    assert(old_list.contains(e) <==> work_list@.contains(e) || e == (l, l_p));
                }
                assert forall|e: (Label, Label)| #[trigger] work_list@.contains(e) implies
                    program.contents.flow_r().contains(e) by {
                    assert(old_list.contains(e));
                }
            }
        }
    }
    proof {
        let fam = sets_of(ana@);
        assert(is_closed(*program, fam)) by {
            assert forall|e: (Label, Label)| #[trigger]
                program.contents.flow_r().contains(e) implies live_entry(
                *program,
                fam,
                e.0,
            ).subset_of(at(fam, e.1)) by {
                assert(!work_list@.contains(e));
            }
        }
        lemma_least_closed_is_below(*program, fam);
        lemma_below_antisymmetric(fam, least_closed(*program));
    }
    ana
}

/// The analysis that the solver hands out for the family `ana`: the entry
/// sets that belong to `ana`, then the exit sets from those by the first
/// equation, then the entry sets from these exit sets by the second.
pub fn present(program: &Program, ana: &LVExit) -> (r: LVAnalysis)
    requires
        program.wf(),
        ana.len() == program.len,
    ensures
        r.entry.len() == program.len,
        r.exit.len() == program.len,
        r@ == presented(*program, sets_of(ana@)),
{
    let first = lv_entry(program, ana);
    let exit = lv_exit(program, &first);
    let entry = lv_entry(program, &exit);
    LVAnalysis { entry, exit }
}

/// Solves the equations for `program` with a work list of reversed flow
/// edges: `present` of what `solve` returns.
///
/// Where no flow edge leaves a final label this is the least solution of
/// the equations, the one that chaotic iteration finds. Where one does, as
/// in a program that ends in a `while`, the exit sets may hold more than
/// the first equation gives, never less; the second equation holds in any
/// case.
pub fn run(program: &Program) -> (r: LVAnalysis)
    requires
        program.wf(),
    ensures
        r.entry.len() == program.len,
        r.exit.len() == program.len,
        r@ == presented(*program, least_closed(*program)),
        r@.entry == entry_round(*program, r@.exit),
        round(*program, r@).below(r@),
        program.has_isolated_exits() ==> is_least_solution(*program, r@),
{
    let ana = solve(program);
    proof {
        assert(sets_of(ana@).len() == ana.len());
        lemma_round_adds_nothing_to_worklist_result(*program);
        if program.has_isolated_exits() {
            lemma_worklist_result_is_least_solution(*program);
        }
    }
    present(program, &ana)
}

} // verus!
