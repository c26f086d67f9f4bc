//! States reached from the start of a hand by a run of folds.

use vstd::prelude::*;
use crate::action::PreflopAction;
use crate::config::PreflopBetConfig;
use crate::state::{PreflopState, StateModel, NUM_PLAYERS, six_max_start, generic_start};
use crate::laws::lemma_next_actor_from_range;

verus! {

/// `start` after `n` folds in a row, each by the seat to act.
pub open spec fn after_folds(start: StateModel, n: nat) -> StateModel
    decreases n,
{
    if n == 0 {
        start
    } else {
        after_folds(start, (n - 1) as nat).apply(PreflopAction::Fold)
    }
}

/// Folding keeps the seat to act a seat.
proof fn lemma_fold_keeps_seat(m: StateModel)
    requires
        m.to_act < NUM_PLAYERS,
    ensures
        m.apply(PreflopAction::Fold).to_act < NUM_PLAYERS,
{
    lemma_next_actor_from_range(m.step(PreflopAction::Fold), m.to_act as int, 1);
}

/// Applies `n` folds to `state`.
fn fold_times(state: PreflopState, n: usize) -> (r: PreflopState)
    requires
        state@.to_act < NUM_PLAYERS,
    ensures
        r@ == after_folds(state@, n as nat),
        r@.to_act < NUM_PLAYERS,
{
    let ghost start = state@;
    let mut s = state;
    let mut i: usize = 0;
    while i < n
        invariant
            i <= n,
            s@ == after_folds(start, i as nat),
            s@.to_act < NUM_PLAYERS,
        decreases n - i,
    {
        proof { lemma_fold_keeps_seat(s@); }
        s = s.apply(PreflopAction::Fold);
        i += 1;
    }
    s
}

/// The 6-max start after the first `pos` seats to act have folded.
pub fn build_state_from_folds(pos: usize, config: &PreflopBetConfig) -> (r: PreflopState)
    ensures
        r@ == after_folds(six_max_start(config@), pos as nat),
{
    let state = PreflopState::new_6max(config.clone());
    fold_times(state, pos)
}

/// The start of a hand with seats `first_active..6` playing `stack_chips` each,
/// after the seats from `first_active` up to `pos` have folded (none when
/// `pos <= first_active`).
pub fn build_state_from_folds_generic(
    pos: usize,
    first_active: usize,
    stack_chips: i32,
    config: &PreflopBetConfig,
) -> (r: PreflopState)
    requires
        first_active <= 4,
        stack_chips >= i32::MIN + 2,
    ensures
        r@ == after_folds(
            generic_start((NUM_PLAYERS - first_active) as int, stack_chips as int, config@),
            (if pos > first_active { pos - first_active } else { 0 }) as nat,
        ),
{
    let num_active = NUM_PLAYERS - first_active;
    let state = PreflopState::new_generic(num_active, stack_chips, config.clone());
    let n = if pos > first_active { pos - first_active } else { 0 };
    fold_times(state, n)
}

} // verus!
