//! Chaotic iteration: the whole analysis is recomputed, round after round,
//! until a round changes nothing.

use crate::analysis::{is_least_solution, lv_entry, lv_exit, round, LVAnalysis, LiveSets};
use crate::fixpoint::lemma_round_monotone;
use crate::lattice::{
    lemma_below_transitive, lemma_weight_bounded, lemma_weight_grows, lemma_weight_monotone,
    weight,
};
use crate::program::Program;
use vstd::prelude::*;

verus! {

/// Solves the equations for `program`, starting from the analysis in which
/// nothing is live. Each round takes the exit sets from the entry sets and
/// then the entry sets from the new exit sets.
///
/// The result is the least solution. The rounds end because none loses a
/// variable, and one that changes something adds one, of which there are
/// `256` for each of the `2 * len` sets.
pub fn run(program: &Program) -> (r: LVAnalysis)
    requires
        program.wf(),
    ensures
        r.entry.len() == program.len,
        r.exit.len() == program.len,
        is_least_solution(*program, r@),
{
    let mut lva = LVAnalysis::new(program.len);
    loop
        invariant
            program.wf(),
            lva@.covers(program.len as nat),
            lva@.below(round(*program, lva@)),
            forall|t: LiveSets| (#[trigger] round(*program, t)).below(t) ==> lva@.below(t),
        ensures
            lva@.covers(program.len as nat),
            is_least_solution(*program, lva@),
        decreases 512 * program.len - weight(lva@.entry) - weight(lva@.exit),
    {
        let exit = lv_exit(program, &lva.entry);
        let entry = lv_entry(program, &exit);
        let lva_next = LVAnalysis { entry, exit };
        assert(lva_next@ == round(*program, lva@));
        if lva_next.same(&lva) {
            break ;
        }
        proof {
            lemma_round_monotone(*program, lva@, lva_next@);
            assert forall|t: LiveSets| (#[trigger] round(*program, t)).below(t) implies
                lva_next@.below(t) by {
                lemma_round_monotone(*program, lva@, t);
                lemma_below_transitive(lva_next@.entry, round(*program, t).entry, t.entry);
                lemma_below_transitive(lva_next@.exit, round(*program, t).exit, t.exit);
            }
            lemma_weight_bounded(lva_next@.entry);
            lemma_weight_bounded(lva_next@.exit);
            lemma_weight_monotone(lva@.entry, lva_next@.entry);
            lemma_weight_monotone(lva@.exit, lva_next@.exit);
            if lva@.entry != lva_next@.entry {
                lemma_weight_grows(lva@.entry, lva_next@.entry);
            } else {
                lemma_weight_grows(lva@.exit, lva_next@.exit);
            }
        }
        lva = lva_next;
    }
    lva
}

} // verus!
