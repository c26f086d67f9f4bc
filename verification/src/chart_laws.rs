//! The action indices recorded for a chart spot lead back to it: taking the
//! legal actions at those indices from the start of the hand reaches the
//! spot's state. (Every fold on a chart line faces a bet, so it is the
//! action at index 0.)

use vstd::prelude::*;
use crate::action::PreflopAction;
use crate::config::ConfigModel;
use crate::state::{StateModel, NUM_PLAYERS, generic_start};
use crate::spots::after_folds;
use crate::lines::{LineModel, fold_line, take_action, first_raise_from, first_call_from, reach_seat, fold_to, turns_to, zeros, lemma_first_index_range, lemma_fold_keeps_wf};
use crate::charts::{chart_spot, root_line, open_line, facing_open_line, facing_3bet_line, facing_4bet_line};
use crate::matchups::{matchup_at, settle, matchup_name, open_then_fold, three_bet_reached, four_bet_reached};
use crate::tree::{replay, indices_fit, seat_after, lemma_next_actor_from_char, lemma_actions_fit};
use crate::laws::{sound, law_generic_start_is_sound, law_short_stacks_only_fold_check_or_shove, lemma_two_live, law_first_action, law_raise_sets_the_bet, lemma_raise_is_legal_size, law_legal_action_keeps_sound, law_generic_start_is_wf, lemma_prefix_max_bounds, lemma_prefix_max_is};

verus! {

/// Seat `r` alone holds the largest bet.
pub open spec fn sole_leader(m: StateModel, r: int) -> bool {
    &&& 0 <= r < NUM_PLAYERS
    &&& m.bets[r] == m.max_bet()
    &&& forall|i: int| 0 <= i < NUM_PLAYERS && i != r ==> #[trigger] m.bets[i] < m.max_bet()
}

/// The history of `l` leads from `root` to its state.
pub open spec fn replays(root: StateModel, l: LineModel) -> bool {
    replay(root, l.history) == l.state
}

/// The seat to act after `t` is `s` when `s` is the first seat round the
/// table from `t` that can act.
proof fn lemma_next_actor_is(m: StateModel, t: int, s: int)
    requires
        0 <= t < NUM_PLAYERS,
        0 <= s < NUM_PLAYERS,
        s != t,
        m.can_act(s),
        forall|q: int| 1 <= q < turns_to(t, s) ==> !m.can_act(#[trigger] seat_after(t, q)),
    ensures
        m.next_actor(t) == s,
{
    let d = turns_to(t, s);
    assert(1 <= d < NUM_PLAYERS);
    assert(seat_after(t, d) == s);
    let j = lemma_next_actor_from_char(m, t, 1);
    if j > d {
        assert(!m.can_act(seat_after(t, d)));
    }
    if j < d {
        assert(m.can_act(seat_after(t, j)));
        assert(!m.can_act(seat_after(t, j)));
    }
}

proof fn lemma_fold_line_succ(l: LineModel, k: nat)
    ensures
        fold_line(fold_line(l, k), 1) == fold_line(l, k + 1),
{
    assert(after_folds(after_folds(l.state, k), 1) == after_folds(after_folds(l.state, k), 0).apply(PreflopAction::Fold));
    assert((l.history + zeros(k)) + zeros(1) =~= l.history + zeros(k + 1));
}

/// One fold by a seat that is not the sole leader keeps the history leading
/// to the state.
proof fn lemma_fold_one(root: StateModel, l: LineModel, r: int)
    requires
        sound(l.state),
        replays(root, l),
        sole_leader(l.state, r),
        l.state.to_act != r,
    ensures
        replays(root, fold_line(l, 1)),
        fold_line(l, 1).state == l.state.apply(PreflopAction::Fold),
        sound(fold_line(l, 1).state),
        sole_leader(fold_line(l, 1).state, r),
{
    let m = l.state;
    let t = m.to_act as int;
    assert(m.to_call() > 0);
    law_first_action(m);
    lemma_fold_keeps_wf(m);
    let h2 = l.history + zeros(1);
    assert(h2 =~= l.history.push(0u8));
    assert(h2.drop_last() =~= l.history);
    assert(after_folds(m, 1) == after_folds(m, 0).apply(PreflopAction::Fold));
    let m2 = m.apply(PreflopAction::Fold);
    assert(m2.bets == m.bets);
    assert(m2.max_bet() == m.max_bet());
}

/// The state of `b` is that of `a` with the seats `lo..hi` folded and a new
/// seat to act; chips, all-ins and counters are the same.
pub open spec fn folded_from(a: StateModel, b: StateModel, lo: int, hi: int) -> bool {
    &&& b.bets == a.bets
    &&& b.stacks == a.stacks
    &&& b.all_in == a.all_in
    &&& b.has_acted.len() == NUM_PLAYERS
    &&& b.n_raises == a.n_raises
    &&& b.config == a.config
    &&& b.last_raise_size == a.last_raise_size
    &&& b.holes == a.holes
    &&& b.folded.len() == NUM_PLAYERS
    &&& forall|j: int| 0 <= j < NUM_PLAYERS ==> #[trigger] b.folded[j] == (a.folded[j] || (lo <= j < hi))
}

/// Folding `k` times from the seat to act `t`, when the seats after it up to
/// `t + k` can act and none of `t .. t + k` is the sole leader, passes the
/// turn to `t + k` and keeps the history leading to the state.
proof fn lemma_fold_run(root: StateModel, l: LineModel, r: int, k: nat)
    requires
        sound(l.state),
        replays(root, l),
        sole_leader(l.state, r),
        l.state.to_act + k < NUM_PLAYERS,
        forall|j: int| l.state.to_act < j <= l.state.to_act + k ==> #[trigger] l.state.can_act(j),
        !(l.state.to_act <= r < l.state.to_act + k),
    ensures
        replays(root, fold_line(l, k)),
        sound(fold_line(l, k).state),
        sole_leader(fold_line(l, k).state, r),
        fold_line(l, k).state.to_act == l.state.to_act + k,
        folded_from(l.state, fold_line(l, k).state, l.state.to_act as int, l.state.to_act + k),
    decreases k,
{
    let t = l.state.to_act as int;
    if k == 0 {
        assert(l.history + zeros(0) =~= l.history);
        assert(fold_line(l, 0) == l);
    } else {
        let k1 = (k - 1) as nat;
        lemma_fold_run(root, l, r, k1);
        let l1 = fold_line(l, k1);
        lemma_fold_one(root, l1, r);
        lemma_fold_line_succ(l, k1);
        let s1 = l1.state.step(PreflopAction::Fold);
        assert(l.state.can_act(t + k));
        assert(l1.state.folded[t + k] == l.state.folded[t + k]);
        assert(l1.state.to_act == t + k - 1);
        assert(s1.folded[t + k] == l1.state.folded[t + k]);
        assert(s1.can_act(t + k));
        lemma_next_actor_is(s1, t + k - 1, t + k);
    }
}

proof fn lemma_next_actor_same(a: StateModel, b: StateModel, t: int, k: int)
    requires
        forall|j: int| #[trigger] a.can_act(j) == b.can_act(j),
    ensures
        a.next_actor_from(t, k) == b.next_actor_from(t, k),
    decreases 7 - k,
{
    if k <= NUM_PLAYERS && !a.can_act((t + k) % (NUM_PLAYERS as int)) {
        lemma_next_actor_same(a, b, t, k + 1);
    }
}

/// The seat to act, able to act, makes the raise at index `i`: the history
/// still leads to the state, the raiser becomes the sole leader and can
/// still act, nobody else changes, and the turn passes as it would from the
/// state before.
proof fn lemma_raise_step(root: StateModel, l: LineModel, i: int)
    requires
        sound(l.state),
        l.state.n_raises < u8::MAX,
        replays(root, l),
        0 <= i < l.state.actions().len(),
        i < 256,
        l.state.actions()[i] is Raise,
        l.state.can_act(l.state.to_act as int),
    ensures
        replays(root, take_action(l, i)),
        sound(take_action(l, i).state),
        sole_leader(take_action(l, i).state, l.state.to_act as int),
        forall|j: int| #[trigger] take_action(l, i).state.can_act(j) == l.state.can_act(j),
        take_action(l, i).state.folded == l.state.folded,
        take_action(l, i).state.to_act == l.state.next_actor(l.state.to_act as int),
        take_action(l, i).state.n_raises == l.state.n_raises + 1,
        take_action(l, i).state.config == l.state.config,
{
    let m = l.state;
    let t = m.to_act as int;
    let a = m.actions()[i];
    let total = a->0;
    assert(m.actions().contains(a));
    if !m.wf() {
        law_short_stacks_only_fold_check_or_shove(m, a);
    }
    law_raise_sets_the_bet(m, total);
    lemma_raise_is_legal_size(m, total);
    law_legal_action_keeps_sound(m, a);
    lemma_prefix_max_bounds(m.bets, NUM_PLAYERS as int);
    let c = m.apply(a);
    let st = m.step(a);
    assert(c.bets[t] == c.max_bet());
    assert forall|j: int| 0 <= j < NUM_PLAYERS && j != t implies #[trigger] c.bets[j] < c.max_bet() by {
        assert(c.bets[j] == m.bets[j]);
        assert(m.bets[j] <= m.max_bet());
    }
    assert(m.my_stack() - (total - m.my_bet()) > 0);
    assert(c.all_in == m.all_in);
    assert(c.folded == m.folded);
    assert forall|j: int| #[trigger] st.can_act(j) == m.can_act(j) by {}
    lemma_next_actor_same(st, m, t, 1);
    crate::laws::lemma_next_actor_from_range(st, t, 1);
    assert(st.next_actor(t) == m.next_actor(t));
    let h2 = l.history.push(i as u8);
    assert(h2.drop_last() =~= l.history);
    assert((i as u8) as int == i);
}

proof fn lemma_folded_from_compose(a: StateModel, b: StateModel, c: StateModel, lo: int, mid: int, hi: int)
    requires
        folded_from(a, b, lo, mid),
        folded_from(b, c, mid, hi),
        lo <= mid <= hi,
    ensures
        folded_from(a, c, lo, hi),
{
    assert forall|j: int| 0 <= j < NUM_PLAYERS implies #[trigger] c.folded[j] == (a.folded[j] || (lo <= j < hi)) by {
        assert(c.folded[j] == (b.folded[j] || (mid <= j < hi)));
        assert(b.folded[j] == (a.folded[j] || (lo <= j < mid)));
    }
}

proof fn lemma_fold_one_folds(root: StateModel, l: LineModel, r: int)
    requires
        sound(l.state),
        replays(root, l),
        sole_leader(l.state, r),
        l.state.to_act != r,
    ensures
        folded_from(l.state, fold_line(l, 1).state, l.state.to_act as int, l.state.to_act + 1),
{
    lemma_fold_one(root, l, r);
    let t = l.state.to_act as int;
    let c = fold_line(l, 1).state;
    assert forall|j: int| 0 <= j < NUM_PLAYERS implies #[trigger] c.folded[j] == (l.state.folded[j] || (t <= j < t + 1)) by {
        if j != t {
            assert(c.folded[j] == l.state.folded[j]);
        }
    }
}

/// After a raise by `r`, the table folds round to `o` (an earlier seat): the
/// seats from the one to act up to the last seat fold, then the turn wraps
/// to `o`, the first seat that can act. The history keeps leading to the state.
proof fn lemma_fold_round(root: StateModel, l: LineModel, o: int, r: int, guarded: bool)
    requires
        sound(l.state),
        replays(root, l),
        sole_leader(l.state, r),
        0 <= o < r,
        l.state.can_act(o),
        l.state.can_act(r),
        forall|j: int| 0 <= j < o ==> !#[trigger] l.state.can_act(j),
        l.state.to_act == o || (r < l.state.to_act && forall|j: int| l.state.to_act <= j < NUM_PLAYERS ==> #[trigger] l.state.can_act(j)),
    ensures
        reach_seat(l, o, guarded) matches Some(l2) && {
            &&& replays(root, l2)
            &&& sound(l2.state)
            &&& sole_leader(l2.state, r)
            &&& l2.state.to_act == o
            &&& folded_from(l.state, l2.state, if l.state.to_act == o { NUM_PLAYERS as int } else { l.state.to_act as int }, NUM_PLAYERS as int)
        },
    decreases if l.state.to_act == o { 0 } else { NUM_PLAYERS + 1 - l.state.to_act },
{
    let t = l.state.to_act as int;
    if t == o {
        assert forall|j: int| 0 <= j < NUM_PLAYERS implies #[trigger] l.state.folded[j] == (l.state.folded[j] || (NUM_PLAYERS <= j < NUM_PLAYERS)) by {}
    } else {
        lemma_two_live(l.state, NUM_PLAYERS as int, o, r);
        lemma_fold_one(root, l, r);
        lemma_fold_one_folds(root, l, r);
        let l1 = fold_line(l, 1);
        let st = l.state.step(PreflopAction::Fold);
        if t < 5 {
            assert(l.state.can_act(t + 1));
            assert(st.can_act(t + 1));
            lemma_next_actor_is(st, t, t + 1);
        } else {
            assert(st.can_act(o));
            assert forall|q: int| 1 <= q < turns_to(t, o) implies !st.can_act(#[trigger] seat_after(t, q)) by {
                assert(seat_after(t, q) == q - 1);
                assert(!l.state.can_act(q - 1));
            }
            lemma_next_actor_is(st, t, o);
        }
        assert(l1.state.can_act(o));
        assert(l1.state.can_act(r));
        assert forall|j: int| 0 <= j < o implies !#[trigger] l1.state.can_act(j) by {
            assert(!l.state.can_act(j));
        }
        if l1.state.to_act != o {
            assert forall|j: int| l1.state.to_act <= j < NUM_PLAYERS implies #[trigger] l1.state.can_act(j) by {
                assert(l.state.can_act(j));
            }
        }
        lemma_fold_round(root, l1, o, r, guarded);
        let l2 = reach_seat(l1, o, guarded)->0;
        assert(reach_seat(l, o, guarded) == fold_to(l, o, guarded));
        assert(fold_to(l, o, guarded) == fold_to(l1, o, guarded));
        if l1.state.to_act == o {
            assert(l2 == l1);
            lemma_folded_from_compose(l.state, l1.state, l2.state, t, t + 1, NUM_PLAYERS as int);
        } else {
            lemma_folded_from_compose(l.state, l1.state, l2.state, t, t + 1, NUM_PLAYERS as int);
        }
    }
}

/// The hands the chart lines start from.
pub open spec fn chart_root_ok(root: StateModel, first: int) -> bool {
    exists|n: int, stack: int, config: ConfigModel|
        2 <= n <= NUM_PLAYERS && i32::MIN + 2 <= stack <= i32::MAX && indices_fit(config) && first == NUM_PLAYERS - n
            && root == generic_start(n, stack, config)
}

/// What the walk relies on at the start of a hand.
proof fn lemma_root_facts(n: int, stack: int, config: ConfigModel)
    requires
        2 <= n <= NUM_PLAYERS,
        i32::MIN + 2 <= stack <= i32::MAX,
    ensures
        sound(generic_start(n, stack, config)),
        generic_start(n, stack, config).to_act == NUM_PLAYERS - n,
        sole_leader(generic_start(n, stack, config), 5),
        forall|j: int| 0 <= j < NUM_PLAYERS ==> #[trigger] generic_start(n, stack, config).can_act(j) == (j >= NUM_PLAYERS - n),
        generic_start(n, stack, config).n_raises == 0,
        replays(generic_start(n, stack, config), root_line(generic_start(n, stack, config))),
{
    let root = generic_start(n, stack, config);
    law_generic_start_is_sound(n, stack, config);
    lemma_prefix_max_is(root.bets, NUM_PLAYERS as int, 2);
}

/// A raise at the first listed raise index stays addressable.
proof fn lemma_first_raise_fits(m: StateModel)
    requires
        indices_fit(m.config),
    ensures
        first_raise_from(m.actions(), 0) matches Some(i) ==> 0 <= i < m.actions().len() && i < 256 && m.actions()[i] is Raise,
{
    lemma_first_index_range(m.actions());
    lemma_actions_fit(m);
}

/// The open of `o` after the seats before it fold.
proof fn lemma_open_phase(root: StateModel, first: int, o: int, n: int, stack: int, config: ConfigModel)
    requires
        2 <= n <= NUM_PLAYERS,
        i32::MIN + 2 <= stack <= i32::MAX,
        indices_fit(config),
        first == NUM_PLAYERS - n,
        root == generic_start(n, stack, config),
        first <= o < 5,
    ensures
        replays(root, fold_line(root_line(root), (o - first) as nat)),
        fold_line(root_line(root), (o - first) as nat).state.to_act == o,
        fold_line(root_line(root), (o - first) as nat).state.n_raises == 0,
        fold_line(root_line(root), (o - first) as nat).state.config == config,
        open_line(root, first, o) matches Some(l) ==> {
            &&& replays(root, l)
            &&& sound(l.state)
            &&& sole_leader(l.state, o)
            &&& l.state.to_act == o + 1
            &&& forall|j: int| 0 <= j < NUM_PLAYERS ==> #[trigger] l.state.can_act(j) == (j >= o)
            &&& l.state.n_raises == 1
            &&& l.state.config == config
        },
{
    lemma_root_facts(n, stack, config);
    let l0 = root_line(root);
    let k = (o - first) as nat;
    lemma_fold_run(root, l0, 5, k);
    let l1 = fold_line(l0, k);
    assert forall|j: int| 0 <= j < NUM_PLAYERS implies #[trigger] l1.state.can_act(j) == (j >= o) by {
        assert(l1.state.folded[j] == (root.folded[j] || (first <= j < o)));
        assert(root.can_act(j) == (j >= first));
    }
    lemma_first_raise_fits(l1.state);
    if let Some(i) = first_raise_from(l1.state.actions(), 0) {
        lemma_raise_step(root, l1, i);
        let l2 = take_action(l1, i);
        lemma_next_actor_is(l1.state, o, o + 1);
    }
}

/// The spot facing the open of `o`, where `d` is to act.
proof fn lemma_facing_open_phase(root: StateModel, first: int, o: int, d: int, n: int, stack: int, config: ConfigModel)
    requires
        2 <= n <= NUM_PLAYERS,
        i32::MIN + 2 <= stack <= i32::MAX,
        indices_fit(config),
        first == NUM_PLAYERS - n,
        root == generic_start(n, stack, config),
        first <= o < 5,
        o < d < NUM_PLAYERS,
    ensures
        facing_open_line(root, first, o, d) matches Some(l) ==> {
            &&& replays(root, l)
            &&& sound(l.state)
            &&& sole_leader(l.state, o)
            &&& l.state.to_act == d
            &&& forall|j: int| 0 <= j < NUM_PLAYERS ==> #[trigger] l.state.can_act(j) == (j == o || j >= d)
            &&& l.state.n_raises == 1
            &&& l.state.config == config
        },
{
    lemma_open_phase(root, first, o, n, stack, config);
    if let Some(l2) = open_line(root, first, o) {
        let k = (d - o - 1) as nat;
        lemma_fold_run(root, l2, o, k);
        let l3 = fold_line(l2, k);
        assert forall|j: int| 0 <= j < NUM_PLAYERS implies #[trigger] l3.state.can_act(j) == (j == o || j >= d) by {
            assert(l3.state.folded[j] == (l2.state.folded[j] || (o + 1 <= j < d)));
            assert(l2.state.can_act(j) == (j >= o));
        }
    }
}

/// The spot where `o` faces the 3-bet of `d`.
proof fn lemma_three_bet_phase(root: StateModel, first: int, o: int, d: int, guarded: bool, n: int, stack: int, config: ConfigModel)
    requires
        2 <= n <= NUM_PLAYERS,
        i32::MIN + 2 <= stack <= i32::MAX,
        indices_fit(config),
        first == NUM_PLAYERS - n,
        root == generic_start(n, stack, config),
        first <= o < 5,
        o < d < NUM_PLAYERS,
    ensures
        facing_3bet_line(root, first, o, d, guarded) matches Some(l) ==> {
            &&& replays(root, l)
            &&& sound(l.state)
            &&& sole_leader(l.state, d)
            &&& l.state.to_act == o
            &&& forall|j: int| 0 <= j < NUM_PLAYERS ==> #[trigger] l.state.can_act(j) == (j == o || j == d)
            &&& l.state.n_raises == 2
            &&& l.state.config == config
        },
{
    lemma_facing_open_phase(root, first, o, d, n, stack, config);
    if let Some(l3) = facing_open_line(root, first, o, d) {
        lemma_first_raise_fits(l3.state);
        if let Some(i) = first_raise_from(l3.state.actions(), 0) {
            lemma_raise_step(root, l3, i);
            let l4 = take_action(l3, i);
            if d < 5 {
                lemma_next_actor_is(l3.state, d, d + 1);
            } else {
                assert forall|q: int| 1 <= q < turns_to(d, o) implies !l3.state.can_act(#[trigger] seat_after(d, q)) by {
                    assert(seat_after(d, q) == q - 1);
                }
                lemma_next_actor_is(l3.state, d, o);
            }
            assert forall|j: int| 0 <= j < o implies !#[trigger] l4.state.can_act(j) by {
                assert(l4.state.can_act(j) == l3.state.can_act(j));
            }
            if l4.state.to_act != o {
                assert forall|j: int| l4.state.to_act <= j < NUM_PLAYERS implies #[trigger] l4.state.can_act(j) by {
                    assert(l4.state.can_act(j) == l3.state.can_act(j));
                }
            }
            assert(l4.state.can_act(o) == l3.state.can_act(o));
            assert(l4.state.can_act(d) == l3.state.can_act(d));
            lemma_fold_round(root, l4, o, d, guarded);
            let l5 = reach_seat(l4, o, guarded)->0;
            let lo = if l4.state.to_act == o { NUM_PLAYERS as int } else { l4.state.to_act as int };
            assert forall|j: int| 0 <= j < NUM_PLAYERS implies #[trigger] l5.state.can_act(j) == (j == o || j == d) by {
                assert(l5.state.folded[j] == (l4.state.folded[j] || (lo <= j < NUM_PLAYERS)));
                assert(l4.state.can_act(j) == l3.state.can_act(j));
            }
        }
    }
}

/// The spot where `d` faces the 4-bet of `o`.
#[verifier::rlimit(90)]
#[verifier::spinoff_prover]
proof fn lemma_four_bet_phase(root: StateModel, first: int, o: int, d: int, guarded: bool, n: int, stack: int, config: ConfigModel)
    requires
        2 <= n <= NUM_PLAYERS,
        i32::MIN + 2 <= stack <= i32::MAX,
        indices_fit(config),
        first == NUM_PLAYERS - n,
        root == generic_start(n, stack, config),
        first <= o < 5,
        o < d < NUM_PLAYERS,
    ensures
        facing_4bet_line(root, first, o, d, guarded) matches Some(l) ==> {
            &&& replays(root, l)
            &&& l.state.to_act == d
            &&& facing_3bet_line(root, first, o, d, guarded) matches Some(l5)
            &&& first_raise_from(l5.state.actions(), 0) matches Some(i)
            &&& l == take_action(l5, i)
        },
{
    lemma_three_bet_phase(root, first, o, d, guarded, n, stack, config);
    if let Some(l5) = facing_3bet_line(root, first, o, d, guarded) {
        lemma_first_raise_fits(l5.state);
        if let Some(i) = first_raise_from(l5.state.actions(), 0) {
            lemma_raise_step(root, l5, i);
            let l6 = take_action(l5, i);
            assert forall|q: int| 1 <= q < turns_to(o, d) implies !l5.state.can_act(#[trigger] seat_after(o, q)) by {
                assert(seat_after(o, q) == o + q);
            }
            lemma_next_actor_is(l5.state, o, d);
            assert(l6.state.can_act(d) == l5.state.can_act(d));
            assert(reach_seat(l6, d, guarded) == Some(l6));
            assert(l6.state.to_act == d);
        }
    }
}

/// The action indices recorded for a chart spot lead back to it: taking the
/// legal actions at those indices from the start of a hand of 2 to 6 players
/// reaches the spot's state, for every kind of spot, opener `o` and other
/// seat `d`, as long as every configured list of raise sizes leaves the
/// action indices within a byte.
pub proof fn law_chart_spot_histories_lead_to_their_states(
    n: int,
    stack: int,
    config: ConfigModel,
    kind: int,
    guarded: bool,
    o: int,
    d: int,
)
    requires
        2 <= n <= NUM_PLAYERS,
        i32::MIN + 2 <= stack <= i32::MAX,
        indices_fit(config),
        NUM_PLAYERS - n <= o < 5,
        o < d < NUM_PLAYERS,
    ensures
        chart_spot(generic_start(n, stack, config), NUM_PLAYERS - n, kind, guarded, o, d) matches Some(p)
            ==> replay(generic_start(n, stack, config), p.history) == p.state,
{
    reveal(chart_spot);
    let root = generic_start(n, stack, config);
    let first = NUM_PLAYERS - n;
    lemma_facing_open_phase(root, first, o, d, n, stack, config);
    lemma_three_bet_phase(root, first, o, d, guarded, n, stack, config);
    lemma_four_bet_phase(root, first, o, d, guarded, n, stack, config);
}

/// What the lines of a 4-bet matchup reach: each decision on them replays
/// from the start of the hand to the seat that takes it.
#[verifier::rlimit(100)]
#[verifier::spinoff_prover]
proof fn lemma_four_bet_lines(n: int, stack: int, config: ConfigModel, guarded: bool, o: int, c: int)
    requires
        2 <= n <= NUM_PLAYERS,
        i32::MIN + 2 <= stack <= i32::MAX,
        indices_fit(config),
        NUM_PLAYERS - n <= o < 5,
        o < c < NUM_PLAYERS,
    ensures
        three_bet_reached(generic_start(n, stack, config), NUM_PLAYERS - n, o, c, guarded) matches Some((l1, i1, l3, i2, l5)) ==> {
            let root = generic_start(n, stack, config);
            &&& replays(root, l1) && l1.state.to_act == o && l1.state.n_raises == 0
            &&& 0 <= i1 < l1.state.actions().len() && l1.state.actions()[i1] is Raise
            &&& replays(root, l3) && l3.state.to_act == c && l3.state.n_raises == 1
            &&& 0 <= i2 < l3.state.actions().len() && l3.state.actions()[i2] is Raise
            &&& replays(root, l5) && l5.state.to_act == o && l5.state.n_raises == 2
            &&& four_bet_reached(l5, c, guarded) matches Some((i3, l7)) ==> {
                &&& 0 <= i3 < l5.state.actions().len() && i3 < 256 && l5.state.actions()[i3] is Raise
                &&& l7 == take_action(l5, i3)
                &&& replays(root, l7) && l7.state.to_act == c
            }
        },
{
    let root = generic_start(n, stack, config);
    let first = NUM_PLAYERS - n;
    lemma_open_phase(root, first, o, n, stack, config);
    lemma_facing_open_phase(root, first, o, c, n, stack, config);
    lemma_three_bet_phase(root, first, o, c, guarded, n, stack, config);
    lemma_four_bet_phase(root, first, o, c, guarded, n, stack, config);
    let l1 = fold_line(root_line(root), (o - first) as nat);
    lemma_first_raise_fits(l1.state);
    if let Some(i1) = first_raise_from(l1.state.actions(), 0) {
        let l3 = fold_line(take_action(l1, i1), (c - o - 1) as nat);
        assert(open_line(root, first, o) == Some(take_action(l1, i1)));
        assert(facing_open_line(root, first, o, c) == Some(l3));
        lemma_first_raise_fits(l3.state);
        if let Some(i2) = first_raise_from(l3.state.actions(), 0) {
            if let Some(l5) = reach_seat(take_action(l3, i2), o, guarded) {
                assert(facing_3bet_line(root, first, o, c, guarded) == Some(l5));
                lemma_first_raise_fits(l5.state);
                if let Some(i3) = first_raise_from(l5.state.actions(), 0) {
                    if let Some(l7) = reach_seat(take_action(l5, i3), c, guarded) {
                        assert(facing_4bet_line(root, first, o, c, guarded) == Some(l7));
                    }
                }
            }
        }
    }
}

/// In every 4-bet matchup of a hand of 2 to 6 players, each side's range is
/// made of the decisions it took on the line, found again by replaying their
/// histories from the start of the hand: the opener opened (a raise, with no
/// raise before) and then 4-bet (a raise, facing the 3-bet after two
/// raises); the other seat 3-bet (a raise facing the open) and then called
/// the 4-bet, which is the action right before its call.
pub proof fn law_four_bet_matchup_steps(
    n: int,
    stack: int,
    config: ConfigModel,
    guarded: bool,
    o: int,
    c: int,
)
    requires
        2 <= n <= NUM_PLAYERS,
        i32::MIN + 2 <= stack <= i32::MAX,
        indices_fit(config),
        NUM_PLAYERS - n <= o < 5,
        o < c < NUM_PLAYERS,
    ensures
        matchup_at(generic_start(n, stack, config), NUM_PLAYERS - n, 3, guarded, o, c) matches Some(mm) ==> {
            let root = generic_start(n, stack, config);
            let (h0, i0) = mm.opener.steps[0];
            let (h1, i1) = mm.opener.steps[1];
            let (g0, j0) = mm.caller.steps[0];
            let (g1, j1) = mm.caller.steps[1];
            &&& mm.opener.steps.len() == 2
            &&& mm.caller.steps.len() == 2
            &&& replay(root, h0).to_act == o && replay(root, h0).n_raises == 0
            &&& 0 <= i0 < replay(root, h0).actions().len() && replay(root, h0).actions()[i0] is Raise
            &&& replay(root, g0).to_act == c && replay(root, g0).n_raises == 1
            &&& 0 <= j0 < replay(root, g0).actions().len() && replay(root, g0).actions()[j0] is Raise
            &&& replay(root, h1).to_act == o && replay(root, h1).n_raises == 2
            &&& 0 <= i1 < replay(root, h1).actions().len() && replay(root, h1).actions()[i1] is Raise
            &&& replay(root, g1).to_act == c
            &&& 0 <= j1 < replay(root, g1).actions().len() && replay(root, g1).actions()[j1] is Call
            &&& g1 == h1.push(i1 as u8)
        },
{
    let root = generic_start(n, stack, config);
    let first = NUM_PLAYERS - n;
    lemma_four_bet_lines(n, stack, config, guarded, o, c);
    if let Some(mm) = matchup_at(root, first, 3, guarded, o, c) {
        reveal(matchup_at);
        let (l1, i1, l3, i2, l5) = three_bet_reached(root, first, o, c, guarded)->0;
        let (i3, l7) = four_bet_reached(l5, c, guarded)->0;
        let i4 = first_call_from(l7.state.actions(), 0)->0;
        lemma_first_index_range(l7.state.actions());
        assert(mm == settle(l7, matchup_name(3, o, c), o, c,
            seq![(l1.history, i1), (l5.history, i3)], seq![(l3.history, i2), (l7.history, i4)]));
        reveal(settle);
        assert(mm.opener.steps == seq![(l1.history, i1), (l5.history, i3)]);
        assert(mm.caller.steps == seq![(l3.history, i2), (l7.history, i4)]);
    }
}

/// What the lines of a single-raised matchup reach: the open and the seat
/// facing it replay from the start of the hand.
proof fn lemma_open_lines(n: int, stack: int, config: ConfigModel, o: int, c: int)
    requires
        2 <= n <= NUM_PLAYERS,
        i32::MIN + 2 <= stack <= i32::MAX,
        indices_fit(config),
        NUM_PLAYERS - n <= o < 5,
        o < c < NUM_PLAYERS,
    ensures
        open_then_fold(generic_start(n, stack, config), NUM_PLAYERS - n, o, c) matches Some((l1, i1, l3)) ==> {
            let root = generic_start(n, stack, config);
            &&& replays(root, l1) && l1.state.to_act == o && l1.state.n_raises == 0
            &&& 0 <= i1 < l1.state.actions().len() && l1.state.actions()[i1] is Raise
            &&& replays(root, l3) && l3.state.to_act == c && l3.state.n_raises == 1
        },
{
    let root = generic_start(n, stack, config);
    let first = NUM_PLAYERS - n;
    lemma_open_phase(root, first, o, n, stack, config);
    lemma_facing_open_phase(root, first, o, c, n, stack, config);
    let l1 = fold_line(root_line(root), (o - first) as nat);
    lemma_first_raise_fits(l1.state);
    if let Some(i1) = first_raise_from(l1.state.actions(), 0) {
        let l3 = fold_line(take_action(l1, i1), (c - o - 1) as nat);
        assert(open_line(root, first, o) == Some(take_action(l1, i1)));
        assert(facing_open_line(root, first, o, c) == Some(l3));
    }
}

/// In every single-raised matchup the opener's range is its open (a raise
/// with no raise before it) and the other seat's range is its call of that
/// open; in every 3-bet matchup the opener's range is its open and then its
/// call facing the 3-bet (after two raises), and the other seat's range is
/// its 3-bet (a raise facing the open). Each decision is found again by
/// replaying its history from the start of the hand.
pub proof fn law_single_and_three_bet_matchup_steps(
    n: int,
    stack: int,
    config: ConfigModel,
    guarded: bool,
    o: int,
    c: int,
)
    requires
        2 <= n <= NUM_PLAYERS,
        i32::MIN + 2 <= stack <= i32::MAX,
        indices_fit(config),
        NUM_PLAYERS - n <= o < 5,
        o < c < NUM_PLAYERS,
    ensures
        matchup_at(generic_start(n, stack, config), NUM_PLAYERS - n, 1, guarded, o, c) matches Some(mm) ==> {
            let root = generic_start(n, stack, config);
            let (h0, i0) = mm.opener.steps[0];
            let (g0, j0) = mm.caller.steps[0];
            &&& mm.opener.steps.len() == 1
            &&& mm.caller.steps.len() == 1
            &&& replay(root, h0).to_act == o && replay(root, h0).n_raises == 0
            &&& 0 <= i0 < replay(root, h0).actions().len() && replay(root, h0).actions()[i0] is Raise
            &&& replay(root, g0).to_act == c && replay(root, g0).n_raises == 1
            &&& 0 <= j0 < replay(root, g0).actions().len() && replay(root, g0).actions()[j0] is Call
        },
        matchup_at(generic_start(n, stack, config), NUM_PLAYERS - n, 2, guarded, o, c) matches Some(mm) ==> {
            let root = generic_start(n, stack, config);
            let (h0, i0) = mm.opener.steps[0];
            let (h1, i1) = mm.opener.steps[1];
            let (g0, j0) = mm.caller.steps[0];
            &&& mm.opener.steps.len() == 2
            &&& mm.caller.steps.len() == 1
            &&& replay(root, h0).to_act == o && replay(root, h0).n_raises == 0
            &&& 0 <= i0 < replay(root, h0).actions().len() && replay(root, h0).actions()[i0] is Raise
            &&& replay(root, g0).to_act == c && replay(root, g0).n_raises == 1
            &&& 0 <= j0 < replay(root, g0).actions().len() && replay(root, g0).actions()[j0] is Raise
            &&& replay(root, h1).to_act == o && replay(root, h1).n_raises == 2
            &&& 0 <= i1 < replay(root, h1).actions().len() && replay(root, h1).actions()[i1] is Call
        },
{
    let root = generic_start(n, stack, config);
    let first = NUM_PLAYERS - n;
    lemma_open_lines(n, stack, config, o, c);
    lemma_four_bet_lines(n, stack, config, guarded, o, c);
    if let Some(mm) = matchup_at(root, first, 1, guarded, o, c) {
        reveal(matchup_at);
        let (l1, i1, l3) = open_then_fold(root, first, o, c)->0;
        let i2 = first_call_from(l3.state.actions(), 0)->0;
        lemma_first_index_range(l3.state.actions());
        assert(mm == settle(l3, matchup_name(1, o, c), o, c, seq![(l1.history, i1)], seq![(l3.history, i2)]));
        reveal(settle);
        assert(mm.opener.steps == seq![(l1.history, i1)]);
        assert(mm.caller.steps == seq![(l3.history, i2)]);
    }
    if let Some(mm) = matchup_at(root, first, 2, guarded, o, c) {
        reveal(matchup_at);
        let (l1, i1, l3, i2, l5) = three_bet_reached(root, first, o, c, guarded)->0;
        let i3 = first_call_from(l5.state.actions(), 0)->0;
        lemma_first_index_range(l5.state.actions());
        assert(mm == settle(l5, matchup_name(2, o, c), o, c,
            seq![(l1.history, i1), (l5.history, i3)], seq![(l3.history, i2)]));
        reveal(settle);
        assert(mm.opener.steps == seq![(l1.history, i1), (l5.history, i3)]);
        assert(mm.caller.steps == seq![(l3.history, i2)]);
    }
}

/// The action indices of an open-raise spot (all folds) lead back to it.
pub proof fn law_rfi_histories_lead_to_their_states(n: int, stack: int, config: ConfigModel, pos: int)
    requires
        2 <= n <= NUM_PLAYERS,
        i32::MIN + 2 <= stack <= i32::MAX,
        NUM_PLAYERS - n <= pos < 5,
    ensures
        replays(generic_start(n, stack, config), fold_line(root_line(generic_start(n, stack, config)), (pos - (NUM_PLAYERS - n)) as nat)),
{
    let root = generic_start(n, stack, config);
    lemma_root_facts(n, stack, config);
    lemma_fold_run(root, root_line(root), 5, (pos - (NUM_PLAYERS - n)) as nat);
}

} // verus!
