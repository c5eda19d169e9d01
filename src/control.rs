//! Decisions of the actor that advances a shared field at a fixed cadence.
//!
//! On every tick the actor reads the `running` and `paused` flags, takes
//! exclusive access to the field and lets `tick` decide what happens; it then
//! sleeps for one tick interval unless the outcome is `Stopped`. Pausing skips
//! steps without changing the cadence, so no step is made up on resume.
use crate::game_of_life::GameOfLife;
use vstd::prelude::*;

verus! {

/// What one tick of the stepping actor did.
#[derive(Clone, Copy, Debug, PartialEq, Eq, Structural)]
pub enum TickOutcome {
    /// `running` was off: the actor ends.
    Stopped,
    /// The simulation is paused: nothing changed.
    Paused,
    /// The field advanced by one generation.
    Stepped,
    /// The field cannot advance: an alive cell lies at the edge of the `i32`
    /// lattice or the generation counter is full. Nothing changed.
    Blocked,
}

/// One tick of the stepping actor, made while it holds exclusive access to `field`.
pub fn tick(field: &mut GameOfLife, running: bool, paused: bool) -> (r: TickOutcome)
    ensures
        !running ==> r == TickOutcome::Stopped,
        running && paused ==> r == TickOutcome::Paused,
        running && !paused && old(field)@.has_margin() && old(field)@.generation < u32::MAX
            ==> r == TickOutcome::Stepped,
        running && !paused && !(old(field)@.has_margin() && old(field)@.generation < u32::MAX)
            ==> r == TickOutcome::Blocked,
        r == TickOutcome::Stepped ==> final(field)@ == old(field)@.advanced(),
        r != TickOutcome::Stepped ==> final(field)@ == old(field)@,
{
    if !running {
        TickOutcome::Stopped
    } else if paused {
        TickOutcome::Paused
    } else if field.can_step() {
        field.step();
        TickOutcome::Stepped
    } else {
        TickOutcome::Blocked
    }
}

} // verus!
