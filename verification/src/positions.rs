//! Who is in position after the flop when two seats reach it.

use vstd::prelude::*;
use crate::state::{PreflopState, NUM_PLAYERS};

verus! {

/// Postflop acting order: SB 0, BB 1, UTG 2, HJ 3, CO 4, BTN 5; a higher
/// rank acts later, in position.
pub open spec fn postflop_rank(p: int) -> int {
    if p == 3 {
        5
    } else if p == 2 {
        4
    } else if p == 1 {
        3
    } else if p == 0 {
        2
    } else if p == 5 {
        1
    } else {
        0
    }
}

/// The postflop rank of seat `p` (see [`postflop_rank`]).
pub fn postflop_rank_of(p: usize) -> (r: usize)
    ensures
        r == postflop_rank(p as int),
{
    if p == 3 {
        5
    } else if p == 2 {
        4
    } else if p == 1 {
        3
    } else if p == 0 {
        2
    } else if p == 5 {
        1
    } else {
        0
    }
}

/// When exactly two seats are left in the hand: the seat in position, the
/// seat out of position, and how many postflop ranks apart they are.
pub fn heads_up_positions(state: &PreflopState) -> (r: Option<(usize, usize, usize)>)
    ensures
        r is Some <==> state@.active_count() == 2,
        r matches Some((ip, oop, gap)) ==> {
            &&& ip < NUM_PLAYERS && oop < NUM_PLAYERS && ip != oop
            &&& state@.live(ip as int) && state@.live(oop as int)
            &&& forall|i: int| 0 <= i < NUM_PLAYERS && state@.live(i) ==> i == ip || i == oop
            &&& postflop_rank(ip as int) > postflop_rank(oop as int)
            &&& gap == postflop_rank(ip as int) - postflop_rank(oop as int)
        },
{
    if state.active_count() != 2 {
        return None;
    }
    let mut first: usize = NUM_PLAYERS;
    let mut second: usize = NUM_PLAYERS;
    let mut i: usize = 0;
    while i < NUM_PLAYERS
        invariant
            i <= NUM_PLAYERS,
            first <= NUM_PLAYERS,
            second <= NUM_PLAYERS,
            state@.active_count() == 2,
            state@.live_count_below(i as int) == (if first == NUM_PLAYERS { 0nat } else if second == NUM_PLAYERS { 1nat } else { 2nat }),
            first < NUM_PLAYERS ==> first < i && state@.live(first as int),
            second < NUM_PLAYERS ==> first < second,
            second < NUM_PLAYERS ==> second < i,
            second < NUM_PLAYERS ==> state@.live(second as int),
            first == NUM_PLAYERS ==> second == NUM_PLAYERS,
            forall|j: int| 0 <= j < i && state@.live(j) ==> j == first || j == second,
        decreases NUM_PLAYERS - i,
    {
        if !state.folded[i] {
            if first == NUM_PLAYERS {
                first = i;
            } else if second == NUM_PLAYERS {
                second = i;
            } else {
                proof {
                    assert(state@.live_count_below(i as int + 1) == 3);
                    lemma_live_count_grows(state@, i as int + 1, NUM_PLAYERS as int);
                    assert(false);
                }
            }
        }
        i += 1;
    }
    if second == NUM_PLAYERS {
        return None;
    }
    let r0 = postflop_rank_of(first);
    let r1 = postflop_rank_of(second);
    assert(r0 != r1);
    if r0 > r1 {
        Some((first, second, r0 - r1))
    } else {
        Some((second, first, r1 - r0))
    }
}

proof fn lemma_live_count_grows(m: crate::state::StateModel, a: int, b: int)
    requires
        0 <= a <= b,
    ensures
        m.live_count_below(a) <= m.live_count_below(b),
    decreases b - a,
{
    if a < b {
        lemma_live_count_grows(m, a, b - 1);
    }
}

} // verus!
