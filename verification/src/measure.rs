//! Termination measure for the frontier loops.
//!
//! Every search keeps a frontier of partial routes and, per iteration,
//! removes one entry and pushes at most `degree` successors, each with one
//! hop less of budget. Weighing an entry with `base^budget`, for any `base`
//! greater than the degree, makes the summed weight of the frontier a
//! strictly decreasing natural number.

use vstd::prelude::*;
use vstd::seq_lib::*;

verus! {

/// `base` to the power `e`, over naturals.
pub open spec fn wpow(base: nat, e: nat) -> nat
    decreases e,
{
    if e == 0 {
        1
    } else {
        base * wpow(base, (e - 1) as nat)
    }
}

/// Summed weight of a frontier, given each entry's remaining hop budget.
pub open spec fn pot(budgets: Seq<nat>, base: nat) -> nat
    decreases budgets.len(),
{
    if budgets.len() == 0 {
        0
    } else {
        pot(budgets.drop_last(), base) + wpow(base, budgets.last())
    }
}

/// A weight is at least one for any positive base.
pub proof fn lemma_wpow_pos(base: nat, e: nat)
    requires
        base >= 1,
    ensures
        wpow(base, e) >= 1,
    decreases e,
{
    if e > 0 {
        lemma_wpow_pos(base, (e - 1) as nat);
        assert(base * wpow(base, (e - 1) as nat) >= 1 * wpow(base, (e - 1) as nat))
            by (nonlinear_arith)
            requires
                base >= 1,
                wpow(base, (e - 1) as nat) >= 1,
        ;
    }
}

/// Pushing an entry adds exactly its weight.
pub proof fn lemma_pot_push(budgets: Seq<nat>, base: nat, b: nat)
    ensures
        pot(budgets.push(b), base) == pot(budgets, base) + wpow(base, b),
{
    assert(budgets.push(b).drop_last() =~= budgets);
    assert(budgets.push(b).last() == b);
}

/// Removing an entry takes away exactly its weight.
pub proof fn lemma_pot_remove(budgets: Seq<nat>, base: nat, i: int)
    requires
        0 <= i < budgets.len(),
    ensures
        pot(budgets, base) == pot(budgets.remove(i), base) + wpow(base, budgets[i]),
    decreases budgets.len(),
{
    if i == budgets.len() - 1 {
        assert(budgets.remove(i) =~= budgets.drop_last());
    } else {
        let shorter = budgets.drop_last();
        lemma_pot_remove(shorter, base, i);
        assert(budgets.remove(i).drop_last() =~= shorter.remove(i));
        assert(budgets.remove(i).last() == budgets.last());
    }
}

/// The frontier's weight after one iteration: one entry of budget `b + 1`
/// was removed and at most `base - 1` entries of budget `b` were pushed, so
/// the summed weight strictly decreased.
pub proof fn lemma_pot_expand(base: nat, b: nat, pushed: nat)
    requires
        base >= 1,
        pushed <= base - 1,
    ensures
        pushed * wpow(base, b) < wpow(base, (b + 1) as nat),
{
    lemma_wpow_pos(base, b);
    assert(wpow(base, (b + 1) as nat) == base * wpow(base, b));
    assert(pushed * wpow(base, b) < base * wpow(base, b)) by (nonlinear_arith)
        requires
            pushed < base,
            wpow(base, b) >= 1,
    ;
}

} // verus!
