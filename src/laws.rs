//! General properties of the Life rule and of the field operations, stated
//! over the model that the operations' contracts use.
use crate::rules::{neighbour_count, LifeState};
use vstd::prelude::*;

verus! {

/// An alive cell with no alive neighbour is dead after one step.
pub proof fn lemma_isolated_cell_dies(s: LifeState, x: int, y: int)
    requires
        s.alive.contains((x, y)),
        neighbour_count(s.alive, x, y) == 0,
    ensures
        !s.advanced().alive.contains((x, y)),
{
}

/// An alive cell is still alive after one step exactly when it has two or
/// three alive neighbours: with fewer it dies of isolation, with four or more
/// of overcrowding.
pub proof fn lemma_survival(s: LifeState, x: int, y: int)
    requires
        s.alive.contains((x, y)),
    ensures
        s.advanced().alive.contains((x, y)) <==> (neighbour_count(s.alive, x, y) == 2
            || neighbour_count(s.alive, x, y) == 3),
        neighbour_count(s.alive, x, y) < 2 ==> !s.advanced().alive.contains((x, y)),
        neighbour_count(s.alive, x, y) > 3 ==> !s.advanced().alive.contains((x, y)),
{
}

/// A dead cell is alive after one step exactly when it has three alive neighbours.
pub proof fn lemma_birth(s: LifeState, x: int, y: int)
    requires
        !s.alive.contains((x, y)),
    ensures
        s.advanced().alive.contains((x, y)) <==> neighbour_count(s.alive, x, y) == 3,
{
}

/// Starting from generation zero, the generation after `n` steps is `n`;
/// a clear sets it back to zero from any state.
pub proof fn lemma_generation_counts_steps(s: LifeState, n: nat)
    requires
        s.generation == 0,
    ensures
        s.after_steps(n).generation == n,
        s.after_steps(n).cleared().generation == 0,
    decreases n,
{
    if n > 0 {
        lemma_generation_counts_steps(s, (n - 1) as nat);
    }
}

/// Flipping the same cell twice gives back the state it started from.
pub proof fn lemma_toggle_twice(s: LifeState, x: int, y: int)
    ensures
        s.toggled(x, y).toggled(x, y) == s,
{
    assert(s.toggled(x, y).toggled(x, y).alive =~= s.alive);
}

} // verus!
