//! The lattice of the analysis: sets of variables ordered by inclusion, with
//! the empty set at the bottom and union as join.
//!
//! The executable operations work on `HashSet<Variable>` by going through
//! the alphabet of 256 variables. The `weight` of a family of sets counts
//! its members; it bounds how often a family can grow.

use crate::expression::Variable;
use std::collections::HashSet;
use vstd::prelude::*;

verus! {

broadcast use vstd::std_specs::hash::group_hash_axioms;

/// A family of variable sets, one for each label: the set of label `l`
/// stands at index `l - 1`.
pub type Family = Seq<Set<Variable>>;

/// The mathematical sets that a vector of hash sets holds.
pub open spec fn sets_of(v: Seq<HashSet<Variable>>) -> Family {
    Seq::new(v.len(), |i: int| v[i]@)
}

/// The family of `n` empty sets.
pub open spec fn bottom(n: nat) -> Family {
    Seq::new(n, |i: int| Set::<Variable>::empty())
}

/// `a` lies below `b`: both have a set for the same labels, and each set
/// of `a` is included in that of `b`.
pub open spec fn below(a: Family, b: Family) -> bool {
    &&& a.len() == b.len()
    &&& forall|i: int| 0 <= i < a.len() ==> #[trigger] a[i].subset_of(b[i])
}

/// The number of variables under `n` that `s` holds.
pub open spec fn count_below(s: Set<Variable>, n: nat) -> nat
    decreases n,
{
    if n == 0 {
        0
    } else {
        count_below(s, (n - 1) as nat) + if s.contains((n - 1) as Variable) {
            1nat
        } else {
            0nat
        }
    }
}

/// The number of variables that `s` holds.
pub open spec fn card(s: Set<Variable>) -> nat {
    count_below(s, 256)
}

/// The number of variables that the sets of `f` hold, all together.
pub open spec fn weight(f: Family) -> nat
    decreases f.len(),
{
    if f.len() == 0 {
        0
    } else {
        weight(f.drop_last()) + card(f.last())
    }
}

/// Under `n` there are at most `n` variables.
pub proof fn lemma_count_bounded(s: Set<Variable>, n: nat)
    ensures
        count_below(s, n) <= n,
    decreases n,
{
    if n > 0 {
        lemma_count_bounded(s, (n - 1) as nat);
    }
}

/// A set holds no more variables than one that includes it.
pub proof fn lemma_count_monotone(s: Set<Variable>, t: Set<Variable>, n: nat)
    requires
        s.subset_of(t),
        n <= 256,
    ensures
        count_below(s, n) <= count_below(t, n),
    decreases n,
{
    if n > 0 {
        lemma_count_monotone(s, t, (n - 1) as nat);
    }
}

/// A set holds fewer variables than one that includes it and holds one
/// more.
pub proof fn lemma_count_strict(s: Set<Variable>, t: Set<Variable>, n: nat, v: Variable)
    requires
        s.subset_of(t),
        n <= 256,
        v < n,
        t.contains(v),
        !s.contains(v),
    ensures
        count_below(s, n) < count_below(t, n),
    decreases n,
{
    if v == n - 1 {
        lemma_count_monotone(s, t, (n - 1) as nat);
    } else {
        lemma_count_strict(s, t, (n - 1) as nat, v);
    }
}

/// A family of `n` sets holds at most `256 * n` variables.
pub proof fn lemma_weight_bounded(f: Family)
    ensures
        weight(f) <= 256 * f.len(),
    decreases f.len(),
{
    if f.len() > 0 {
        lemma_weight_bounded(f.drop_last());
        lemma_count_bounded(f.last(), 256);
    }
}

/// A family weighs no more than one above it.
pub proof fn lemma_weight_monotone(a: Family, b: Family)
    requires
        below(a, b),
    ensures
        weight(a) <= weight(b),
    decreases a.len(),
{
    if a.len() > 0 {
        assert(a.last().subset_of(b.last())) by {
            assert(a[a.len() - 1].subset_of(b[a.len() - 1]));
        }
        assert(below(a.drop_last(), b.drop_last())) by {
            assert forall|i: int| 0 <= i < a.drop_last().len() implies #[trigger] a.drop_last()[i].subset_of(
            b.drop_last()[i]) by {
                assert(a[i].subset_of(b[i]));
            }
        }
        lemma_weight_monotone(a.drop_last(), b.drop_last());
        lemma_count_monotone(a.last(), b.last(), 256);
    }
}

/// A family weighs less than one above it that holds a variable more.
pub proof fn lemma_weight_strict(a: Family, b: Family, i: int, v: Variable)
    requires
        below(a, b),
        0 <= i < a.len(),
        b[i].contains(v),
        !a[i].contains(v),
    ensures
        weight(a) < weight(b),
    decreases a.len(),
{
    assert(a.last().subset_of(b.last())) by {
        assert(a[a.len() - 1].subset_of(b[a.len() - 1]));
    }
    assert(below(a.drop_last(), b.drop_last())) by {
        assert forall|j: int| 0 <= j < a.drop_last().len() implies #[trigger] a.drop_last()[j].subset_of(
        b.drop_last()[j]) by {
            assert(a[j].subset_of(b[j]));
        }
    }
    if i == a.len() - 1 {
        lemma_weight_monotone(a.drop_last(), b.drop_last());
        lemma_count_strict(a.last(), b.last(), 256, v);
    } else {
        lemma_weight_strict(a.drop_last(), b.drop_last(), i, v);
        lemma_count_monotone(a.last(), b.last(), 256);
    }
}

/// A family weighs less than a different one above it.
pub proof fn lemma_weight_grows(a: Family, b: Family)
    requires
        below(a, b),
        a != b,
    ensures
        weight(a) < weight(b),
{
    if forall|i: int| 0 <= i < a.len() ==> a[i] == b[i] {
        assert(a =~= b);
    }
    let i = choose|i: int| 0 <= i < a.len() && a[i] != b[i];
    if forall|v: Variable| a[i].contains(v) == b[i].contains(v) {
        assert(a[i] =~= b[i]);
    }
    let v = choose|v: Variable| a[i].contains(v) != b[i].contains(v);
    assert(a[i].subset_of(b[i]));
    lemma_weight_strict(a, b, i, v);
}

/// What lies below a family lies below everything above that family.
pub proof fn lemma_below_transitive(a: Family, b: Family, c: Family)
    requires
        below(a, b),
        below(b, c),
    ensures
        below(a, c),
{
    assert forall|i: int| 0 <= i < a.len() implies #[trigger] a[i].subset_of(c[i]) by {
        assert(a[i].subset_of(b[i]));
        assert(b[i].subset_of(c[i]));
    }
}

/// Two families that lie below each other are the same.
pub proof fn lemma_below_antisymmetric(a: Family, b: Family)
    requires
        below(a, b),
        below(b, a),
    ensures
        a == b,
{
    assert forall|i: int| 0 <= i < a.len() implies a[i] == b[i] by {
        assert(a[i].subset_of(b[i]));
        assert(b[i].subset_of(a[i]));
        assert(a[i] =~= b[i]);
    }
    assert(a =~= b);
}

/// A vector of `len` empty sets.
pub fn empty_sets(len: usize) -> (r: Vec<HashSet<Variable>>)
    ensures
        r.len() == len,
        sets_of(r@) == bottom(len as nat),
{
    let mut r: Vec<HashSet<Variable>> = Vec::new();
    let mut i: usize = 0;
    while i < len
        invariant
            i <= len,
            r.len() == i,
            forall|j: int| 0 <= j < i ==> r@[j]@ == Set::<Variable>::empty(),
        decreases len - i,
    {
        r.push(HashSet::new());
        i += 1;
    }
    assert(sets_of(r@) =~= bottom(len as nat));
    r
}

/// Adds the variables of `other` to `acc`.
pub fn union_into(acc: &mut HashSet<Variable>, other: &HashSet<Variable>)
    ensures
        final(acc)@ == old(acc)@.union(other@),
{
    let ghost before = acc@;
    let mut i: usize = 0;
    while i < 256
        invariant
            i <= 256,
            forall|v: Variable|
                #[trigger] acc@.contains(v) <==> before.contains(v) || (other@.contains(v) && v
                    < i),
        decreases 256 - i,
    {
        let v: Variable = i as Variable;
        if other.contains(&v) {
            acc.insert(v);
        }
        i += 1;
    }
    assert(acc@ =~= before.union(other@));
}

/// The variables of `a` that are not in `b`.
pub fn difference(a: &HashSet<Variable>, b: &HashSet<Variable>) -> (r: HashSet<Variable>)
    ensures
        r@ == a@.difference(b@),
{
    let mut r: HashSet<Variable> = HashSet::new();
    let mut i: usize = 0;
    while i < 256
        invariant
            i <= 256,
            forall|v: Variable|
                #[trigger] r@.contains(v) <==> a@.contains(v) && !b@.contains(v) && v < i,
        decreases 256 - i,
    {
        let v: Variable = i as Variable;
        if a.contains(&v) && !b.contains(&v) {
            r.insert(v);
        }
        i += 1;
    }
    assert(r@ =~= a@.difference(b@));
    r
}

/// Whether every variable of `a` is in `b`.
pub fn is_subset(a: &HashSet<Variable>, b: &HashSet<Variable>) -> (r: bool)
    ensures
        r == a@.subset_of(b@),
{
    let mut i: usize = 0;
    while i < 256
        invariant
            i <= 256,
            forall|v: Variable| v < i && #[trigger] a@.contains(v) ==> b@.contains(v),
        decreases 256 - i,
    {
        let v: Variable = i as Variable;
        if a.contains(&v) && !b.contains(&v) {
            return false;
        }
        i += 1;
    }
    true
}

/// Whether `a` and `b` hold the same variables.
pub fn same_set(a: &HashSet<Variable>, b: &HashSet<Variable>) -> (r: bool)
    ensures
        r == (a@ == b@),
{
    let r = is_subset(a, b) && is_subset(b, a);
    proof {
        if r {
            assert(a@ =~= b@);
        }
    }
    r
}

/// A set with the variables of `a`.
pub fn copy_set(a: &HashSet<Variable>) -> (r: HashSet<Variable>)
    ensures
        r@ == a@,
{
    let mut r: HashSet<Variable> = HashSet::new();
    union_into(&mut r, a);
    assert(r@ =~= a@);
    r
}

/// Whether two vectors hold the same sets, place by place.
pub fn same_family(a: &Vec<HashSet<Variable>>, b: &Vec<HashSet<Variable>>) -> (r: bool)
    ensures
        r == (sets_of(a@) == sets_of(b@)),
{
    if a.len() != b.len() {
        assert(sets_of(a@).len() != sets_of(b@).len());
        return false;
    }
    let mut i: usize = 0;
    while i < a.len()
        invariant
            i <= a.len(),
            a.len() == b.len(),
            forall|j: int| 0 <= j < i ==> a@[j]@ == b@[j]@,
        decreases a.len() - i,
    {
        if !same_set(&a[i], &b[i]) {
            assert(sets_of(a@)[i as int] != sets_of(b@)[i as int]);
            return false;
        }
        i += 1;
    }
    assert(sets_of(a@) =~= sets_of(b@));
    true
}

} // verus!
