//! Laws of the betting state machine, proved over the models.

use vstd::prelude::*;
use crate::action::PreflopAction;
use crate::action::PreflopNodeType;
use crate::config::ConfigModel;
use crate::state::{StateModel, prefix_max, NUM_PLAYERS, SB_SEAT, generic_start, six_max_start, heads_up_start};

verus! {

/// The largest of the first `n` bets is at least each of them and equals one of them.
pub proof fn lemma_prefix_max_bounds(b: Seq<i32>, n: int)
    requires
        1 <= n <= b.len(),
    ensures
        forall|i: int| 0 <= i < n ==> b[i] <= prefix_max(b, n),
        exists|i: int| 0 <= i < n && b[i] == prefix_max(b, n),
    decreases n,
{
    if n > 1 {
        lemma_prefix_max_bounds(b, n - 1);
        if b[n - 1] > prefix_max(b, n - 1) {
            assert(b[n - 1] == prefix_max(b, n));
        } else {
            let i = choose|i: int| 0 <= i < n - 1 && b[i] == prefix_max(b, n - 1);
            assert(b[i] == prefix_max(b, n));
        }
    } else {
        assert(b[0] == prefix_max(b, n));
    }
}

/// A value that is one of the first `n` bets and at least all of them is their maximum.
pub proof fn lemma_prefix_max_is(b: Seq<i32>, n: int, v: int)
    requires
        1 <= n <= b.len(),
        exists|i: int| 0 <= i < n && b[i] == v,
        forall|i: int| 0 <= i < n ==> b[i] <= v,
    ensures
        prefix_max(b, n) == v,
{
    lemma_prefix_max_bounds(b, n);
    let i = choose|i: int| 0 <= i < n && b[i] == v;
    let j = choose|j: int| 0 <= j < n && b[j] == prefix_max(b, n);
    assert(b[i] <= prefix_max(b, n));
    assert(b[j] <= v);
}

/// The seat chosen to act next is a seat whenever the seat that acted was one.
pub proof fn lemma_next_actor_from_range(m: StateModel, after: int, k: int)
    requires
        0 <= after < NUM_PLAYERS,
        k >= 1,
    ensures
        0 <= m.next_actor_from(after, k) < NUM_PLAYERS,
    decreases 7 - k,
{
    if k <= NUM_PLAYERS && !m.can_act((after + k) % (NUM_PLAYERS as int)) {
        lemma_next_actor_from_range(m, after, k + 1);
    }
}

/// Passing the turn picks a seat that can act whenever one can.
pub proof fn lemma_next_actor_from_can_act(m: StateModel, after: int, k: int, j: int)
    requires
        0 <= after < NUM_PLAYERS,
        1 <= k <= j <= NUM_PLAYERS,
        m.can_act((after + j) % (NUM_PLAYERS as int)),
    ensures
        m.can_act(m.next_actor_from(after, k)),
    decreases 7 - k,
{
    if !m.can_act((after + k) % (NUM_PLAYERS as int)) {
        lemma_next_actor_from_can_act(m, after, k + 1, j);
    }
}

/// After any seat `after`, the next seat to act can act, provided some seat can.
pub proof fn lemma_next_actor_can_act(m: StateModel, after: int, i: int)
    requires
        0 <= after < NUM_PLAYERS,
        0 <= i < NUM_PLAYERS,
        m.can_act(i),
    ensures
        m.can_act(m.next_actor(after)),
        0 <= m.next_actor(after) < NUM_PLAYERS,
{
    let j = if i > after { i - after } else { i - after + NUM_PLAYERS };
    assert((after + j) % (NUM_PLAYERS as int) == i);
    lemma_next_actor_from_can_act(m, after, 1, j);
    lemma_next_actor_from_range(m, after, 1);
}

/// Every action only moves chips from the acting seat's stack into its bet:
/// each seat's stack plus bet is the same before and after, every per-seat
/// sequence keeps one entry per seat, and the seat to act stays a seat.
pub proof fn law_apply_conserves_seat_chips(m: StateModel, a: PreflopAction)
    requires
        m.shaped(),
        m.apply_fits(a),
    ensures
        m.apply(a).shaped(),
        forall|i: int|
            0 <= i < NUM_PLAYERS ==> #[trigger] m.apply(a).stacks[i] + m.apply(a).bets[i] == m.stacks[i]
                + m.bets[i],
{
    lemma_next_actor_from_range(m.step(a), m.to_act as int, 1);
}

/// Folding and going all-in are permanent, and the raise count never goes down.
pub proof fn law_apply_is_monotone(m: StateModel, a: PreflopAction)
    requires
        m.shaped(),
        m.apply_fits(a),
    ensures
        forall|i: int| 0 <= i < NUM_PLAYERS && #[trigger] m.folded[i] ==> m.apply(a).folded[i],
        forall|i: int| 0 <= i < NUM_PLAYERS && #[trigger] m.all_in[i] ==> m.apply(a).all_in[i],
        m.apply(a).n_raises >= m.n_raises,
{
}

/// The turn always passes to a seat that can act, whenever any seat can.
pub proof fn law_turn_passes_to_actor(m: StateModel, a: PreflopAction, i: int)
    requires
        m.shaped(),
        m.apply_fits(a),
        0 <= i < NUM_PLAYERS,
        m.apply(a).can_act(i),
    ensures
        m.apply(a).can_act(m.apply(a).to_act as int),
{
    lemma_next_actor_can_act(m.step(a), m.to_act as int, i);
}

/// The seat `k` places after `from`, going round the table, can act.
pub open spec fn acts_after(m: StateModel, from: int, k: int) -> bool {
    m.can_act((from + k) % (NUM_PLAYERS as int))
}

/// The first seat that can act among `from + k`, ..., `from + 6` (round the
/// table) is the one `j` places after `from`.
pub open spec fn first_actor_at(m: StateModel, from: int, k: int, j: int) -> bool {
    &&& k <= j <= NUM_PLAYERS
    &&& acts_after(m, from, j)
    &&& forall|i: int| k <= i < j ==> !#[trigger] acts_after(m, from, i)
}

proof fn lemma_next_actor_from_first(m: StateModel, after: int, k: int)
    requires
        1 <= k <= NUM_PLAYERS + 1,
    ensures
        forall|j: int| k <= j <= NUM_PLAYERS && #[trigger] acts_after(m, after, j) ==> exists|q: int|
            #[trigger] first_actor_at(m, after, k, q) && m.next_actor_from(after, k) == (after + q) % (
            NUM_PLAYERS as int),
        (forall|j: int| k <= j <= NUM_PLAYERS ==> !#[trigger] acts_after(m, after, j)) ==> m.next_actor_from(
            after,
            k,
        ) == after,
    decreases NUM_PLAYERS + 1 - k,
{
    if k <= NUM_PLAYERS {
        lemma_next_actor_from_first(m, after, k + 1);
        if acts_after(m, after, k) {
            assert(first_actor_at(m, after, k, k));
        } else {
            assert forall|j: int| k <= j <= NUM_PLAYERS && #[trigger] acts_after(m, after, j) implies exists|q: int|
                #[trigger] first_actor_at(m, after, k, q) && m.next_actor_from(after, k) == (after + q) % (
                NUM_PLAYERS as int) by {
                assert(j != k);
                assert(k + 1 <= j);
                let q = choose|q: int| #[trigger] first_actor_at(m, after, k + 1, q) && m.next_actor_from(after, k + 1)
                    == (after + q) % (NUM_PLAYERS as int);
                assert forall|i: int| k <= i < q implies !#[trigger] acts_after(m, after, i) by {
                    if i > k {
                        assert(k + 1 <= i < q);
                    }
                }
                assert(first_actor_at(m, after, k, q));
            }
        }
    }
}

/// An action changes the stack, bet, fold mark and all-in mark of the seat
/// that takes it and of no other seat, keeps the hole cards and the betting
/// configuration, and passes the turn to the first seat after it, going
/// round the table, that has neither folded nor gone all-in; when there is
/// none, the turn stays with the seat that acted.
pub proof fn law_apply_changes_only_the_actor(m: StateModel, a: PreflopAction)
    requires
        m.shaped(),
        m.apply_fits(a),
    ensures
        forall|i: int|
            0 <= i < NUM_PLAYERS && i != m.to_act ==> {
                &&& #[trigger] m.apply(a).stacks[i] == m.stacks[i]
                &&& m.apply(a).bets[i] == m.bets[i]
                &&& m.apply(a).folded[i] == m.folded[i]
                &&& m.apply(a).all_in[i] == m.all_in[i]
            },
        m.apply(a).holes == m.holes,
        m.apply(a).config == m.config,
        (exists|j: int| 1 <= j <= NUM_PLAYERS && #[trigger] acts_after(m.apply(a), m.to_act as int, j)) ==> exists|q: int|
            #[trigger] first_actor_at(m.apply(a), m.to_act as int, 1, q) && m.apply(a).to_act == (m.to_act + q) % (
            NUM_PLAYERS as int),
        (forall|j: int| 1 <= j <= NUM_PLAYERS ==> !#[trigger] acts_after(m.apply(a), m.to_act as int, j))
            ==> m.apply(a).to_act == m.to_act,
{
    let p = m.to_act as int;
    let s = m.step(a);
    let r = m.apply(a);
    lemma_next_actor_from_range(s, p, 1);
    lemma_next_actor_from_first(s, p, 1);
    assert forall|j: int| #[trigger] acts_after(r, p, j) == acts_after(s, p, j) by {}
    if exists|j: int| 1 <= j <= NUM_PLAYERS && #[trigger] acts_after(r, p, j) {
        let j = choose|j: int| 1 <= j <= NUM_PLAYERS && #[trigger] acts_after(r, p, j);
        assert(acts_after(s, p, j));
        let q = choose|q: int| #[trigger] first_actor_at(s, p, 1, q) && s.next_actor_from(p, 1) == (p + q) % (
            NUM_PLAYERS as int);
        assert(acts_after(s, p, q));
        assert forall|i: int| 1 <= i < q implies !#[trigger] acts_after(r, p, i) by {
            assert(!acts_after(s, p, i));
        }
        assert(first_actor_at(r, p, 1, q));
    } else {
        assert forall|j: int| 1 <= j <= NUM_PLAYERS implies !#[trigger] acts_after(s, p, j) by {
            assert(!acts_after(r, p, j));
        }
    }
}

/// Where a raise to `total` can stand in the list of legal actions.
pub proof fn lemma_raise_is_legal_size(m: StateModel, total: i32)
    requires
        m.actions().contains(PreflopAction::Raise(total)),
    ensures
        m.to_call() > 0 ==> m.to_call() < m.my_stack() && m.facing_raise_ok(total),
        m.to_call() <= 0 ==> m.unfaced_raise_ok(total),
{
    let a = PreflopAction::Raise(total);
    let k = choose|k: int| 0 <= k < m.actions().len() && m.actions()[k] == a;
    if m.to_call() > 0 {
        if m.to_call() >= m.my_stack() {
            assert(m.actions()[k] is Fold || m.actions()[k] is AllIn);
        } else {
            let call_part = if m.call_offered() { seq![PreflopAction::Call] } else { Seq::<PreflopAction>::empty() };
            let allin_part = if m.allin_depth_met() { seq![PreflopAction::AllIn] } else { Seq::<PreflopAction>::empty() };
            let front = seq![PreflopAction::Fold] + call_part;
            assert(m.actions() == front + m.facing_raises() + allin_part);
            assert(k >= front.len());
            assert(k < front.len() + m.facing_raises().len());
            assert(m.facing_raises()[k - front.len()] == a);
            assert(m.facing_raises().contains(a));
            m.depth_sizes().lemma_filter_map_contains(m.facing_pick(), a);
            let t = choose|t: i32| m.depth_sizes().contains(t) && (m.facing_pick())(t) == Some(a);
            assert(m.offered_size(t) == total);
        }
    } else {
        let allin_part = if m.my_stack() > 0 && m.allin_depth_met() {
            seq![PreflopAction::AllIn]
        } else {
            Seq::<PreflopAction>::empty()
        };
        assert(m.actions() == seq![PreflopAction::Check] + m.unfaced_raises() + allin_part);
        assert(k >= 1);
        assert(k < 1 + m.unfaced_raises().len());
        assert(m.unfaced_raises()[k - 1] == a);
        assert(m.unfaced_raises().contains(a));
        m.depth_sizes().lemma_filter_map_contains(m.unfaced_pick(), a);
    }
}

/// In a well-formed state every legal action can be applied, keeps the state
/// well-formed (no stack goes negative, no chip count overflows), and never
/// takes chips back: no bet and not the largest bet go down.
pub proof fn law_legal_action_keeps_wf(m: StateModel, a: PreflopAction)
    requires
        m.wf(),
        m.n_raises < u8::MAX,
        m.actions().contains(a),
    ensures
        m.apply_fits(a),
        m.apply(a).wf(),
        forall|i: int| 0 <= i < NUM_PLAYERS ==> #[trigger] m.apply(a).bets[i] >= m.bets[i],
        m.apply(a).max_bet() >= m.max_bet(),
{
    let p = m.to_act as int;
    lemma_prefix_max_bounds(m.bets, NUM_PLAYERS as int);
    assert(m.bets[p] <= m.max_bet());
    assert(0 <= m.stacks[p]);
    match a {
        PreflopAction::Raise(total) => {
            lemma_raise_is_legal_size(m, total);
            if m.to_call() <= 0 {
                assert(m.max_bet() == m.my_bet());
            }
        },
        _ => {},
    }
    let r = m.apply(a);
    law_apply_conserves_seat_chips(m, a);
    assert forall|i: int| 0 <= i < NUM_PLAYERS implies {
        &&& 0 <= #[trigger] r.stacks[i]
        &&& 0 <= r.bets[i]
        &&& r.stacks[i] + r.bets[i] <= i32::MAX
        &&& r.all_in[i] ==> r.stacks[i] == 0
        &&& r.bets[i] >= m.bets[i]
    } by {
        assert(0 <= m.stacks[i]);
    }
    lemma_prefix_max_bounds(r.bets, NUM_PLAYERS as int);
    let j = choose|j: int| 0 <= j < NUM_PLAYERS && m.bets[j] == prefix_max(m.bets, NUM_PLAYERS as int);
    assert(r.bets[j] >= m.bets[j]);
}

/// A legal raise to `total` puts in more than the largest bet, makes `total` the
/// largest bet, counts as one more raise, and becomes the new raise size.
pub proof fn law_raise_sets_the_bet(m: StateModel, total: i32)
    requires
        m.wf(),
        m.n_raises < u8::MAX,
        m.actions().contains(PreflopAction::Raise(total)),
    ensures
        total > m.max_bet(),
        m.apply(PreflopAction::Raise(total)).max_bet() == total,
        m.apply(PreflopAction::Raise(total)).bets[m.to_act as int] == total,
        m.apply(PreflopAction::Raise(total)).n_raises == m.n_raises + 1,
        m.apply(PreflopAction::Raise(total)).last_raise_size == total - m.max_bet(),
{
    let a = PreflopAction::Raise(total);
    let p = m.to_act as int;
    lemma_prefix_max_bounds(m.bets, NUM_PLAYERS as int);
    lemma_raise_is_legal_size(m, total);
    if m.to_call() <= 0 {
        assert(m.max_bet() == m.my_bet());
    }
    law_legal_action_keeps_wf(m, a);
    let r = m.apply(a);
    assert(r.bets[p] == total);
    assert forall|i: int| 0 <= i < NUM_PLAYERS implies r.bets[i] <= total by {
        if i != p {
            assert(r.bets[i] == m.bets[i]);
        }
    }
    lemma_prefix_max_is(r.bets, NUM_PLAYERS as int, total as int);
}

/// The minimum-raise rule: facing a bet, a raise is offered only if it raises by
/// at least the last full raise.
pub proof fn law_min_raise(m: StateModel, total: i32)
    requires
        m.to_call() > 0,
        m.actions().contains(PreflopAction::Raise(total)),
    ensures
        total - m.max_bet() >= m.last_raise_size,
{
    lemma_raise_is_legal_size(m, total);
}

/// Calling is offered only facing a bet, and facing only the blinds (no raise
/// yet) only to the SB when limping is allowed: nobody else may open-limp.
pub proof fn law_no_open_limp(m: StateModel)
    requires
        m.actions().contains(PreflopAction::Call),
    ensures
        m.to_call() > 0,
        m.n_raises == 0 ==> m.to_act == SB_SEAT && m.config.sb_limp,
{
    let k = choose|k: int| 0 <= k < m.actions().len() && m.actions()[k] == PreflopAction::Call;
    if m.to_call() > 0 {
        if m.to_call() < m.my_stack() {
            let call_part = if m.call_offered() { seq![PreflopAction::Call] } else { Seq::<PreflopAction>::empty() };
            let allin_part = if m.allin_depth_met() { seq![PreflopAction::AllIn] } else { Seq::<PreflopAction>::empty() };
            let front = seq![PreflopAction::Fold] + call_part;
            assert(m.actions() == front + m.facing_raises() + allin_part);
            if k >= front.len() && k < front.len() + m.facing_raises().len() {
                assert(m.facing_raises().contains(PreflopAction::Call));
                m.depth_sizes().lemma_filter_map_contains(m.facing_pick(), PreflopAction::Call);
            }
        }
    } else {
        let allin_part = if m.my_stack() > 0 && m.allin_depth_met() {
            seq![PreflopAction::AllIn]
        } else {
            Seq::<PreflopAction>::empty()
        };
        assert(m.actions() == seq![PreflopAction::Check] + m.unfaced_raises() + allin_part);
        if k >= 1 && k < 1 + m.unfaced_raises().len() {
            assert(m.unfaced_raises().contains(PreflopAction::Call));
            m.depth_sizes().lemma_filter_map_contains(m.unfaced_pick(), PreflopAction::Call);
        }
    }
}

/// All-in is offered as a voluntary action (with more behind than the call)
/// only once `min_allin_depth` raises have been made; facing a bet of the
/// whole stack or more the only choices are fold and all-in.
pub proof fn law_allin_gating(m: StateModel)
    ensures
        m.actions().contains(PreflopAction::AllIn) && m.to_call() < m.my_stack() ==> m.allin_depth_met(),
        m.to_call() > 0 && m.to_call() >= m.my_stack() ==> m.actions() == seq![
            PreflopAction::Fold,
            PreflopAction::AllIn,
        ],
{
    if m.actions().contains(PreflopAction::AllIn) && m.to_call() < m.my_stack() {
        let k = choose|k: int| 0 <= k < m.actions().len() && m.actions()[k] == PreflopAction::AllIn;
        if m.to_call() > 0 {
            let call_part = if m.call_offered() { seq![PreflopAction::Call] } else { Seq::<PreflopAction>::empty() };
            let allin_part = if m.allin_depth_met() { seq![PreflopAction::AllIn] } else { Seq::<PreflopAction>::empty() };
            let front = seq![PreflopAction::Fold] + call_part;
            assert(m.actions() == front + m.facing_raises() + allin_part);
            if k >= front.len() && k < front.len() + m.facing_raises().len() {
                assert(m.facing_raises().contains(PreflopAction::AllIn));
                m.depth_sizes().lemma_filter_map_contains(m.facing_pick(), PreflopAction::AllIn);
            }
        } else {
            let allin_part = if m.my_stack() > 0 && m.allin_depth_met() {
                seq![PreflopAction::AllIn]
            } else {
                Seq::<PreflopAction>::empty()
            };
            assert(m.actions() == seq![PreflopAction::Check] + m.unfaced_raises() + allin_part);
            if k >= 1 && k < 1 + m.unfaced_raises().len() {
                assert(m.unfaced_raises().contains(PreflopAction::AllIn));
                m.depth_sizes().lemma_filter_map_contains(m.unfaced_pick(), PreflopAction::AllIn);
            }
        }
    }
}

/// Whether the seat to act may go all-in, in terms of its own chips and the
/// largest bet (held by seat `j`): facing a bet it cannot cover it always
/// may; otherwise it may exactly when it has more behind than the call and
/// at least `min_allin_depth` raises have been made.
pub proof fn law_allin_offer(m: StateModel, j: int)
    requires
        m.shaped(),
        0 <= j < NUM_PLAYERS,
        forall|i: int| 0 <= i < NUM_PLAYERS ==> #[trigger] m.bets[i] <= m.bets[j],
    ensures
        m.actions().contains(PreflopAction::AllIn) <==> (
            (m.bets[j] - m.bets[m.to_act as int] > 0 && m.bets[j] - m.bets[m.to_act as int] >= m.stacks[m.to_act as int])
            || (m.stacks[m.to_act as int] > m.bets[j] - m.bets[m.to_act as int]
                && m.n_raises >= m.config.min_allin_depth)),
{
    lemma_prefix_max_is(m.bets, NUM_PLAYERS as int, m.bets[j] as int);
    law_allin_gating(m);
    let acts = m.actions();
    if m.to_call() > 0 {
        if m.to_call() < m.my_stack() {
            let call_part = if m.call_offered() { seq![PreflopAction::Call] } else { Seq::<PreflopAction>::empty() };
            let allin_part = if m.allin_depth_met() { seq![PreflopAction::AllIn] } else { Seq::<PreflopAction>::empty() };
            let front = seq![PreflopAction::Fold] + call_part;
            assert(acts == front + m.facing_raises() + allin_part);
            if m.allin_depth_met() {
                assert(acts[acts.len() - 1] == PreflopAction::AllIn);
            }
        } else {
            assert(acts[1] == PreflopAction::AllIn);
        }
    } else {
        let allin_part = if m.my_stack() > 0 && m.allin_depth_met() {
            seq![PreflopAction::AllIn]
        } else {
            Seq::<PreflopAction>::empty()
        };
        assert(acts == seq![PreflopAction::Check] + m.unfaced_raises() + allin_part);
        if m.my_stack() > 0 && m.allin_depth_met() {
            assert(acts[acts.len() - 1] == PreflopAction::AllIn);
        } else if acts.contains(PreflopAction::AllIn) {
            let k = choose|k: int| 0 <= k < acts.len() && acts[k] == PreflopAction::AllIn;
            assert(allin_part.len() == 0);
            assert(k >= 1 && k < 1 + m.unfaced_raises().len());
            assert(m.unfaced_raises()[k - 1] == PreflopAction::AllIn);
            assert(m.unfaced_raises().contains(PreflopAction::AllIn));
            m.depth_sizes().lemma_filter_map_contains(m.unfaced_pick(), PreflopAction::AllIn);
        }
    }
}

/// How each action moves the raise count and the raise size, with seat `j`
/// holding the largest bet: a fold, check or call changes neither; a raise
/// to `total` counts one more raise of `total` less the largest bet; an
/// all-in counts one more raise, of its excess over the largest bet, exactly
/// when that excess is positive and at least the last raise, and otherwise
/// changes neither. The all-in seat's whole stack goes into its bet.
pub proof fn law_raise_count(m: StateModel, a: PreflopAction, j: int)
    requires
        m.shaped(),
        m.apply_fits(a),
        0 <= j < NUM_PLAYERS,
        forall|i: int| 0 <= i < NUM_PLAYERS ==> #[trigger] m.bets[i] <= m.bets[j],
    ensures
        (a is Fold || a is Check || a is Call) ==> m.apply(a).n_raises == m.n_raises
            && m.apply(a).last_raise_size == m.last_raise_size,
        a matches PreflopAction::Raise(total) ==> m.apply(a).n_raises == m.n_raises + 1
            && m.apply(a).last_raise_size == total - m.bets[j],
        a is AllIn ==> {
            let p = m.to_act as int;
            let nb = m.bets[p] + m.stacks[p];
            &&& m.apply(a).bets[p] == nb
            &&& m.apply(a).stacks[p] == 0
            &&& m.apply(a).all_in[p]
            &&& (nb > m.bets[j] && nb - m.bets[j] >= m.last_raise_size) ==> m.apply(a).n_raises == m.n_raises + 1
                && m.apply(a).last_raise_size == nb - m.bets[j]
            &&& !(nb > m.bets[j] && nb - m.bets[j] >= m.last_raise_size) ==> m.apply(a).n_raises == m.n_raises
                && m.apply(a).last_raise_size == m.last_raise_size
        },
{
    lemma_prefix_max_is(m.bets, NUM_PLAYERS as int, m.bets[j] as int);
    lemma_next_actor_from_range(m.step(a), m.to_act as int, 1);
}

/// There is always at least one legal action: fold first when facing a bet,
/// check first otherwise.
pub proof fn law_first_action(m: StateModel)
    ensures
        m.actions().len() >= 1,
        m.actions()[0] == (if m.to_call() > 0 { PreflopAction::Fold } else { PreflopAction::Check }),
{
}

/// Two different seats that have not folded make at least two live seats.
pub proof fn lemma_two_live(m: StateModel, n: int, i: int, j: int)
    requires
        0 <= i < n,
        0 <= j < n,
        i != j,
        m.live(i),
        m.live(j),
    ensures
        m.live_count_below(n) >= 2,
    decreases n,
{
    if i < n - 1 && j < n - 1 {
        lemma_two_live(m, n - 1, i, j);
    } else {
        let other = if i == n - 1 { j } else { i };
        lemma_one_live(m, n - 1, other);
    }
}

/// A seat that has not folded makes at least one live seat.
proof fn lemma_one_live(m: StateModel, n: int, i: int)
    requires
        0 <= i < n,
        m.live(i),
    ensures
        m.live_count_below(n) >= 1,
    decreases n,
{
    if i < n - 1 {
        lemma_one_live(m, n - 1, i);
    }
}

/// The first live seat at or after `from` is live whenever one exists.
proof fn lemma_first_live(m: StateModel, from: int, i: int)
    requires
        0 <= from <= i < NUM_PLAYERS,
        m.live(i),
    ensures
        from <= m.first_live_from(from) <= i,
        m.live(m.first_live_from(from)),
    decreases NUM_PLAYERS - from,
{
    if !m.live(from) {
        lemma_first_live(m, from + 1, i);
    }
}

/// A fold win goes to the one seat that has not folded.
pub proof fn law_fold_win_is_last_seat(m: StateModel, w: u8)
    requires
        m.node_type() == PreflopNodeType::TerminalFold(w),
    ensures
        0 <= w < NUM_PLAYERS,
        m.live(w as int),
        forall|j: int| 0 <= j < NUM_PLAYERS && j != w ==> !#[trigger] m.live(j),
{
    assert(m.active_count() == 1);
    if forall|i: int| 0 <= i < NUM_PLAYERS ==> !#[trigger] m.live(i) {
        lemma_no_live(m, NUM_PLAYERS as int);
    }
    let i = choose|i: int| 0 <= i < NUM_PLAYERS && #[trigger] m.live(i);
    lemma_first_live(m, 0, i);
    let f = m.first_live_from(0);
    assert forall|j: int| 0 <= j < NUM_PLAYERS && j != w implies !#[trigger] m.live(j) by {
        if m.live(j) {
            lemma_two_live(m, NUM_PLAYERS as int, f, j);
        }
    }
}

/// With no live seat among the first `n`, none is counted.
proof fn lemma_no_live(m: StateModel, n: int)
    requires
        0 <= n <= NUM_PLAYERS,
        forall|i: int| 0 <= i < NUM_PLAYERS ==> !#[trigger] m.live(i),
    ensures
        m.live_count_below(n) == 0,
    decreases n,
{
    if n > 0 {
        lemma_no_live(m, n - 1);
    }
}

/// The generic start with six players and 100bb is the 6-max start; with two
/// players and 100bb it is the heads-up start.
pub proof fn law_generic_start_matches_presets(config: ConfigModel)
    ensures
        generic_start(6, 200, config) == six_max_start(config),
        generic_start(2, 200, config) == heads_up_start(config),
{
    assert(generic_start(6, 200, config) =~~= six_max_start(config));
    assert(generic_start(2, 200, config) =~~= heads_up_start(config));
}

/// A hand of 2..=6 players with at least the big blind behind starts
/// well-formed, with each active seat holding `stack_chips` in stack plus bet,
/// the folded front seats holding nothing, and a seat to act that can act.
pub proof fn law_generic_start_is_wf(num_active: int, stack_chips: int, config: ConfigModel)
    requires
        2 <= num_active <= NUM_PLAYERS,
        2 <= stack_chips <= i32::MAX,
    ensures
        generic_start(num_active, stack_chips, config).wf(),
        forall|i: int|
            NUM_PLAYERS - num_active <= i < NUM_PLAYERS ==> #[trigger] generic_start(num_active, stack_chips, config).stacks[i]
                + generic_start(num_active, stack_chips, config).bets[i] == stack_chips,
        forall|i: int|
            0 <= i < NUM_PLAYERS - num_active ==> #[trigger] generic_start(num_active, stack_chips, config).stacks[i]
                + generic_start(num_active, stack_chips, config).bets[i] == 0,
        generic_start(num_active, stack_chips, config).can_act(
            generic_start(num_active, stack_chips, config).to_act as int,
        ),
{
}

/// Every seat holds at most one chip in all (stack plus bet), as when the
/// stacks are too short to post the blinds in full: a seat that has not
/// gone all-in still has at most its blind (0 to 2 chips) in front of it,
/// and one that has has no stack left.
pub open spec fn short_stacked(m: StateModel) -> bool {
    &&& m.shaped()
    &&& forall|i: int|
        0 <= i < NUM_PLAYERS ==> {
            &&& i32::MIN + 2 <= #[trigger] m.stacks[i] + m.bets[i] <= 1
            &&& (!m.all_in[i] ==> 0 <= m.bets[i] <= 2)
            &&& (m.all_in[i] ==> m.stacks[i] == 0)
        }
}

/// The states the game can be in from any start: well-formed, or with
/// stacks too short to post the blinds.
pub open spec fn sound(m: StateModel) -> bool {
    m.wf() || short_stacked(m)
}

/// With stacks too short for the blinds, no seat can call or raise: every
/// legal action is a fold, a check or an all-in, it can be applied, and the
/// stacks stay that short.
pub proof fn law_short_stacks_only_fold_check_or_shove(m: StateModel, a: PreflopAction)
    requires
        short_stacked(m),
        m.n_raises < u8::MAX,
        m.actions().contains(a),
    ensures
        a is Fold || a is Check || a is AllIn,
        m.apply_fits(a),
        short_stacked(m.apply(a)),
{
    let p = m.to_act as int;
    lemma_prefix_max_bounds(m.bets, NUM_PLAYERS as int);
    assert(m.bets[p] <= m.max_bet());
    assert(m.stacks[p] + m.bets[p] <= 1);
    match a {
        PreflopAction::Raise(total) => {
            lemma_raise_is_legal_size(m, total);
            assert(false);
        },
        PreflopAction::Call => {
            let k = choose|k: int| 0 <= k < m.actions().len() && m.actions()[k] == a;
            if m.to_call() > 0 {
                if m.to_call() >= m.my_stack() {
                    assert(m.actions()[k] is Fold || m.actions()[k] is AllIn);
                }
            } else {
                let allin_part = if m.my_stack() > 0 && m.allin_depth_met() {
                    seq![PreflopAction::AllIn]
                } else {
                    Seq::<PreflopAction>::empty()
                };
                assert(m.actions() == seq![PreflopAction::Check] + m.unfaced_raises() + allin_part);
                if 1 <= k < 1 + m.unfaced_raises().len() {
                    assert(m.unfaced_raises()[k - 1] == a);
                    assert(m.unfaced_raises().contains(a));
                    m.depth_sizes().lemma_filter_map_contains(m.unfaced_pick(), a);
                }
            }
            assert(false);
        },
        _ => {},
    }
    let r = m.apply(a);
    law_apply_conserves_seat_chips(m, a);
    assert forall|i: int| 0 <= i < NUM_PLAYERS implies {
        &&& i32::MIN + 2 <= #[trigger] r.stacks[i] + r.bets[i] <= 1
        &&& (!r.all_in[i] ==> 0 <= r.bets[i] <= 2)
        &&& (r.all_in[i] ==> r.stacks[i] == 0)
    } by {
        assert(i32::MIN + 2 <= m.stacks[i] + m.bets[i] <= 1);
    }
}

/// Every legal action from a sound state can be applied and leads to a
/// sound state.
pub proof fn law_legal_action_keeps_sound(m: StateModel, a: PreflopAction)
    requires
        sound(m),
        m.n_raises < u8::MAX,
        m.actions().contains(a),
    ensures
        m.apply_fits(a),
        sound(m.apply(a)),
{
    if m.wf() {
        law_legal_action_keeps_wf(m, a);
    } else {
        law_short_stacks_only_fold_check_or_shove(m, a);
    }
}

/// The start of a hand whose stacks are too short to post the blinds in
/// full is short-stacked, and its seat to act can act.
pub proof fn law_generic_start_is_short(num_active: int, stack_chips: int, config: ConfigModel)
    requires
        2 <= num_active <= NUM_PLAYERS,
        i32::MIN + 2 <= stack_chips <= 1,
    ensures
        short_stacked(generic_start(num_active, stack_chips, config)),
        generic_start(num_active, stack_chips, config).can_act(
            generic_start(num_active, stack_chips, config).to_act as int,
        ),
{
}

/// Every start of a hand the constructor can make is sound.
pub proof fn law_generic_start_is_sound(num_active: int, stack_chips: int, config: ConfigModel)
    requires
        2 <= num_active <= NUM_PLAYERS,
        i32::MIN + 2 <= stack_chips <= i32::MAX,
    ensures
        sound(generic_start(num_active, stack_chips, config)),
        generic_start(num_active, stack_chips, config).can_act(
            generic_start(num_active, stack_chips, config).to_act as int,
        ),
{
    if stack_chips >= 2 {
        law_generic_start_is_wf(num_active, stack_chips, config);
    } else {
        law_generic_start_is_short(num_active, stack_chips, config);
    }
}

/// Beyond the last configured raise depth no sized raise is offered: the
/// only way to raise further is all-in.
pub proof fn law_no_sized_raise_beyond_last_depth(m: StateModel)
    requires
        m.n_raises >= m.config.raise_sizes.len(),
    ensures
        forall|k: int| 0 <= k < m.actions().len() ==> !(#[trigger] m.actions()[k] is Raise),
{
    assert(m.depth_sizes() =~= Seq::<i32>::empty());
    assert(m.facing_raises() =~= Seq::<PreflopAction>::empty());
    assert(m.unfaced_raises() =~= Seq::<PreflopAction>::empty());
}

} // verus!
