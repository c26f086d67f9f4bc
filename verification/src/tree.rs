//! A walk over every decision node of the preflop game tree, in depth-first
//! order, with the line that leads to each node.

use vstd::prelude::*;
use crate::action::{PreflopAction, PreflopNodeType, action_text};
use crate::config::{ConfigModel, PreflopBetConfig};
use crate::state::{PreflopState, StateModel, NUM_PLAYERS, generic_start};
use crate::labels::{ActionRecord, build_label, position_name, seat_name, spot_label};
use crate::laws::{
    lemma_prefix_max_bounds, lemma_prefix_max_is, lemma_next_actor_from_range, law_legal_action_keeps_sound,
    law_turn_passes_to_actor, law_generic_start_is_sound, sound, law_apply_is_monotone,
    law_no_sized_raise_beyond_last_depth,
};

verus! {

// ---------------------------------------------------------------------------
// How far a state is from the end of the betting
// ---------------------------------------------------------------------------

/// Seat `i` still owes an action: it can act and has not both acted and
/// matched the largest bet.
pub open spec fn pending(m: StateModel, i: int) -> bool {
    m.can_act(i) && !(m.has_acted[i] && m.bets[i] == m.max_bet())
}

/// Number of seats among the first `n` that still owe an action.
pub open spec fn pending_count_below(m: StateModel, n: int) -> nat
    decreases n,
{
    if n <= 0 { 0 } else { pending_count_below(m, n - 1) + if pending(m, n - 1) { 1nat } else { 0nat } }
}

/// The seat `k` places after `from`, going round the table.
pub open spec fn seat_after(from: int, k: int) -> int {
    (from + k) % (NUM_PLAYERS as int)
}

/// The least offset `>= k` from `from` at which a seat owes an action (6 when none).
pub open spec fn pending_offset(m: StateModel, from: int, k: int) -> int
    decreases NUM_PLAYERS - k,
{
    if k >= NUM_PLAYERS {
        NUM_PLAYERS as int
    } else if pending(m, seat_after(from, k)) {
        k
    } else {
        pending_offset(m, from, k + 1)
    }
}

/// Raises still allowed before the walk stops following raises.
pub open spec fn raises_left(m: StateModel, max_n_raises: u8) -> int {
    max_n_raises - m.n_raises
}

/// Seats that can still act.
pub open spec fn actors_left(m: StateModel) -> nat {
    m.actor_count_below(NUM_PLAYERS as int)
}

/// Seats that still owe an action.
pub open spec fn pending_left(m: StateModel) -> nat {
    pending_count_below(m, NUM_PLAYERS as int)
}

/// Turns until a seat that owes an action is reached.
pub open spec fn turns_to_pending(m: StateModel) -> int {
    pending_offset(m, m.to_act as int, 0)
}

/// `c` is strictly closer to the end of the betting than `m`: the measure
/// (raises left, actors left, seats owing an action, turns to such a seat)
/// goes down in lexicographic order.
pub open spec fn walk_measure_drops(m: StateModel, c: StateModel, max_n_raises: u8) -> bool {
    ||| 0 <= raises_left(c, max_n_raises) < raises_left(m, max_n_raises)
    ||| raises_left(c, max_n_raises) == raises_left(m, max_n_raises) && actors_left(c) < actors_left(m)
    ||| raises_left(c, max_n_raises) == raises_left(m, max_n_raises) && actors_left(c) == actors_left(m)
        && pending_left(c) < pending_left(m)
    ||| raises_left(c, max_n_raises) == raises_left(m, max_n_raises) && actors_left(c) == actors_left(m)
        && pending_left(c) == pending_left(m) && 0 <= turns_to_pending(c) < turns_to_pending(m)
}

proof fn lemma_actor_count_le(m: StateModel, c: StateModel, n: int, p: int)
    requires
        0 <= n <= NUM_PLAYERS,
        forall|i: int| 0 <= i < n && #[trigger] c.can_act(i) ==> m.can_act(i),
    ensures
        c.actor_count_below(n) <= m.actor_count_below(n),
        0 <= p < n && m.can_act(p) && !c.can_act(p) ==> c.actor_count_below(n) < m.actor_count_below(n),
    decreases n,
{
    if n > 0 {
        lemma_actor_count_le(m, c, n - 1, p);
    }
}

proof fn lemma_actor_count_same(m: StateModel, c: StateModel, n: int)
    requires
        0 <= n <= NUM_PLAYERS,
        forall|i: int| 0 <= i < n ==> #[trigger] c.can_act(i) == m.can_act(i),
    ensures
        c.actor_count_below(n) == m.actor_count_below(n),
    decreases n,
{
    if n > 0 {
        lemma_actor_count_same(m, c, n - 1);
    }
}

proof fn lemma_pending_count_le(m: StateModel, c: StateModel, n: int, p: int)
    requires
        0 <= n <= NUM_PLAYERS,
        forall|i: int| 0 <= i < n && #[trigger] pending(c, i) ==> pending(m, i),
    ensures
        pending_count_below(c, n) <= pending_count_below(m, n),
        0 <= p < n && pending(m, p) && !pending(c, p) ==> pending_count_below(c, n) < pending_count_below(m, n),
    decreases n,
{
    if n > 0 {
        lemma_pending_count_le(m, c, n - 1, p);
    }
}

/// Which branch of the action list an action comes from.
proof fn lemma_action_kind(m: StateModel, a: PreflopAction)
    requires
        m.actions().contains(a),
    ensures
        a is Check ==> m.to_call() <= 0,
        a is Call ==> 0 < m.to_call() < m.my_stack(),
{
    let k = choose|k: int| 0 <= k < m.actions().len() && m.actions()[k] == a;
    if m.to_call() > 0 {
        if m.to_call() >= m.my_stack() {
            assert(m.actions()[k] is Fold || m.actions()[k] is AllIn);
        } else if a is Check {
            let call_part = if m.call_offered() { seq![PreflopAction::Call] } else { Seq::<PreflopAction>::empty() };
            let allin_part = if m.allin_depth_met() { seq![PreflopAction::AllIn] } else { Seq::<PreflopAction>::empty() };
            let front = seq![PreflopAction::Fold] + call_part;
            assert(m.actions() == front + m.facing_raises() + allin_part);
            assert(k >= front.len());
            assert(k < front.len() + m.facing_raises().len());
            assert(m.facing_raises()[k - front.len()] == a);
            assert(m.facing_raises().contains(a));
            m.depth_sizes().lemma_filter_map_contains(m.facing_pick(), a);
        }
    } else if a is Call {
        let allin_part = if m.my_stack() > 0 && m.allin_depth_met() {
            seq![PreflopAction::AllIn]
        } else {
            Seq::<PreflopAction>::empty()
        };
        assert(m.actions() == seq![PreflopAction::Check] + m.unfaced_raises() + allin_part);
        assert(k >= 1);
        assert(k < 1 + m.unfaced_raises().len());
        assert(m.unfaced_raises()[k - 1] == a);
        assert(m.unfaced_raises().contains(a));
        m.depth_sizes().lemma_filter_map_contains(m.unfaced_pick(), a);
    }
}

proof fn lemma_pending_offset_char(m: StateModel, from: int, k: int)
    requires
        0 <= k <= NUM_PLAYERS,
    ensures
        k <= pending_offset(m, from, k) <= NUM_PLAYERS,
        pending_offset(m, from, k) < NUM_PLAYERS ==> pending(m, seat_after(from, pending_offset(m, from, k))),
        forall|t: int| k <= t < pending_offset(m, from, k) ==> !pending(m, #[trigger] seat_after(from, t)),
    decreases NUM_PLAYERS - k,
{
    if k < NUM_PLAYERS && !pending(m, seat_after(from, k)) {
        lemma_pending_offset_char(m, from, k + 1);
    }
}

/// The offset `j` of the seat chosen by `next_actor_from(after, k)`: the first
/// offset from `k` on whose seat can act, or 7 when no seat can.
pub proof fn lemma_next_actor_from_char(m: StateModel, after: int, k: int) -> (j: int)
    requires
        1 <= k <= NUM_PLAYERS + 1,
    ensures
        k <= j <= NUM_PLAYERS + 1,
        j <= NUM_PLAYERS ==> m.next_actor_from(after, k) == seat_after(after, j) && m.can_act(seat_after(after, j)),
        j == NUM_PLAYERS + 1 ==> m.next_actor_from(after, k) == after,
        forall|t: int| k <= t < j && t <= NUM_PLAYERS ==> !m.can_act(#[trigger] seat_after(after, t)),
    decreases NUM_PLAYERS + 1 - k,
{
    if k > NUM_PLAYERS {
        k
    } else if m.can_act(seat_after(after, k)) {
        k
    } else {
        lemma_next_actor_from_char(m, after, k + 1)
    }
}

/// A check by a seat that owed nothing passes the turn closer to a seat that does.
proof fn lemma_idle_check_nears_pending(m: StateModel, c: StateModel, i: int)
    requires
        m.shaped(),
        0 <= i < NUM_PLAYERS,
        pending(m, i),
        !pending(m, m.to_act as int),
        c == (StateModel { to_act: m.next_actor(m.to_act as int) as u8, ..m }),
    ensures
        0 <= turns_to_pending(c) < turns_to_pending(m),
{
    let p = m.to_act as int;
    let n = NUM_PLAYERS as int;
    lemma_pending_offset_char(m, p, 0);
    let d = pending_offset(m, p, 0);
    let ti = if i >= p { i - p } else { i - p + n };
    assert(seat_after(p, ti) == i);
    assert(d <= ti);
    assert(seat_after(p, 0) == p);
    assert(d >= 1);
    let j = lemma_next_actor_from_char(m, p, 1);
    assert(m.can_act(seat_after(p, d)));
    assert(j <= d);
    let q = seat_after(p, j);
    assert(c.to_act == q);
    assert forall|x: int| pending(c, x) == pending(m, x) by {}
    lemma_pending_offset_char(c, q, 0);
    let r = pending_offset(c, q, 0);
    assert(seat_after(q, d - j) == seat_after(p, d));
    assert forall|t: int| 0 <= t < d - j implies !pending(c, #[trigger] seat_after(q, t)) by {
        assert(seat_after(q, t) == seat_after(p, j + t));
    }
    if r < d - j {
        assert(!pending(c, seat_after(q, r)));
    }
    assert(r == d - j);
}

/// Every action the walk follows from a decision node brings the betting
/// strictly closer to its end.
pub proof fn lemma_walk_step(m: StateModel, a: PreflopAction, max_n_raises: u8)
    requires
        m.shaped(),
        m.n_raises <= max_n_raises,
        m.n_raises < u8::MAX,
        m.node_type() is Decision,
        m.can_act(m.to_act as int),
        m.actions().contains(a),
        m.apply(a).n_raises <= max_n_raises,
    ensures
        walk_measure_drops(m, m.apply(a), max_n_raises),
{
    let p = m.to_act as int;
    let s = m.step(a);
    let c = m.apply(a);
    lemma_action_kind(m, a);
    lemma_prefix_max_bounds(m.bets, NUM_PLAYERS as int);
    assert(m.bets[p] <= m.max_bet());
    lemma_next_actor_from_range(s, p, 1);
    match a {
        PreflopAction::Fold => {
            lemma_actor_count_le(m, c, NUM_PLAYERS as int, p);
        },
        PreflopAction::Check => {
            assert(m.bets[p] == m.max_bet());
            lemma_actor_count_same(m, c, NUM_PLAYERS as int);
            assert(c.max_bet() == m.max_bet());
            if pending(m, p) {
                lemma_pending_count_le(m, c, NUM_PLAYERS as int, p);
            } else {
                assert(s.has_acted =~= m.has_acted);
                assert(s =~= m);
                lemma_pending_count_le(m, c, NUM_PLAYERS as int, p);
                lemma_pending_count_le(c, m, NUM_PLAYERS as int, p);
                let i = choose|i: int| 0 <= i < NUM_PLAYERS && #[trigger] m.can_act(i) && !(m.has_acted[i] && m.bets[i] == m.max_bet());
                lemma_idle_check_nears_pending(m, c, i);
            }
        },
        PreflopAction::Call => {
            assert(m.call_amount() == m.to_call());
            assert(c.bets[p] == m.max_bet());
            lemma_prefix_max_is(c.bets, NUM_PLAYERS as int, m.max_bet());
            lemma_actor_count_same(m, c, NUM_PLAYERS as int);
            lemma_pending_count_le(m, c, NUM_PLAYERS as int, p);
        },
        PreflopAction::Raise(total) => {},
        PreflopAction::AllIn => {
            lemma_actor_count_le(m, c, NUM_PLAYERS as int, p);
        },
    }
}

// ---------------------------------------------------------------------------
// The walk
// ---------------------------------------------------------------------------

/// A decision node of the game tree, without the strategy stored for it.
pub struct TreeNode {
    /// Spot name, e.g. "CO | UTG open > HJ call" or "UTG RFI".
    pub spot_name: String,
    /// Name of the seat to act.
    pub position: String,
    /// Seat to act (0 = UTG ... 5 = BB).
    pub position_idx: usize,
    /// Indices of the actions taken from the root, as stored in blueprint keys.
    pub history: Vec<u8>,
    /// The non-fold actions that led here, e.g. "UTG open > HJ call".
    pub line: String,
    /// The legal actions at this node as text.
    pub available_actions: Vec<String>,
    /// The legal actions at this node.
    pub actions: Vec<PreflopAction>,
}

pub struct TreeNodeModel {
    pub spot_name: Seq<char>,
    pub position: Seq<char>,
    pub position_idx: usize,
    pub history: Seq<u8>,
    pub line: Seq<char>,
    pub available_actions: Seq<Seq<char>>,
    pub actions: Seq<PreflopAction>,
}

impl View for TreeNode {
    type V = TreeNodeModel;

    open spec fn view(&self) -> TreeNodeModel {
        TreeNodeModel {
            spot_name: self.spot_name@,
            position: self.position@,
            position_idx: self.position_idx,
            history: self.history@,
            line: self.line@,
            available_actions: self.available_actions@.map_values(|t: String| t@),
            actions: self.actions@,
        }
    }
}

/// The views of a list of nodes.
pub open spec fn node_views(v: Seq<TreeNode>) -> Seq<TreeNodeModel> {
    v.map_values(|n: TreeNode| n@)
}

/// The node for a decision state `m` reached by the action indices `hist`
/// and the actions `log`.
pub open spec fn node_at(m: StateModel, hist: Seq<u8>, log: Seq<ActionRecord>) -> TreeNodeModel {
    let p = m.to_act as int;
    TreeNodeModel {
        spot_name: spot_label(p, log).0,
        position: seat_name(p),
        position_idx: p as usize,
        history: hist,
        line: spot_label(p, log).1,
        available_actions: m.actions().map_values(|a: PreflopAction| action_text(a)),
        actions: m.actions(),
    }
}

/// Number of the first `n` seats that have gone all-in.
pub open spec fn all_in_below(m: StateModel, n: int) -> nat
    decreases n,
{
    if n <= 0 {
        0
    } else {
        all_in_below(m, n - 1) + if m.all_in[n - 1] { 1nat } else { 0nat }
    }
}

/// At most 248 raise depths are configured, and the raises made are at
/// most the configured depths plus the seats that have gone all-in (each
/// raise beyond the depths is an all-in): so while a seat can still act,
/// fewer than `u8::MAX` raises have been made.
pub open spec fn raise_room(m: StateModel) -> bool {
    &&& m.config.raise_sizes.len() <= 248
    &&& m.n_raises <= m.config.raise_sizes.len() + all_in_below(m, NUM_PLAYERS as int)
}

pub proof fn lemma_all_in_below_bound(m: StateModel, p: int, n: int)
    requires
        0 <= n <= NUM_PLAYERS,
        0 <= p < NUM_PLAYERS,
        !m.all_in[p],
    ensures
        all_in_below(m, n) <= n - (if p < n { 1int } else { 0int }),
    decreases n,
{
    if n > 0 {
        lemma_all_in_below_bound(m, p, n - 1);
    }
}

proof fn lemma_all_in_below_grows(m: StateModel, c: StateModel, p: int, n: int)
    requires
        0 <= n <= NUM_PLAYERS,
        0 <= p < NUM_PLAYERS,
        forall|i: int| 0 <= i < NUM_PLAYERS && #[trigger] m.all_in[i] ==> c.all_in[i],
    ensures
        all_in_below(c, n) >= all_in_below(m, n) + (if p < n && c.all_in[p] && !m.all_in[p] { 1int } else { 0int }),
    decreases n,
{
    if n > 0 {
        lemma_all_in_below_grows(m, c, p, n - 1);
    }
}

/// While a seat can act in a state with raise room, fewer than `u8::MAX`
/// raises have been made.
pub proof fn lemma_raise_room_bound(m: StateModel)
    requires
        raise_room(m),
        m.shaped(),
        m.can_act(m.to_act as int),
    ensures
        m.n_raises < u8::MAX,
{
    lemma_all_in_below_bound(m, m.to_act as int, NUM_PLAYERS as int);
}

/// A legal action keeps raise room.
proof fn lemma_raise_room_kept(m: StateModel, a: PreflopAction)
    requires
        raise_room(m),
        m.shaped(),
        m.can_act(m.to_act as int),
        m.actions().contains(a),
        m.apply_fits(a),
    ensures
        raise_room(m.apply(a)),
{
    let p = m.to_act as int;
    let c = m.apply(a);
    law_apply_is_monotone(m, a);
    lemma_all_in_below_grows(m, c, p, NUM_PLAYERS as int);
    match a {
        PreflopAction::Raise(total) => {
            if m.n_raises >= m.config.raise_sizes.len() {
                law_no_sized_raise_beyond_last_depth(m);
                let k = choose|k: int| 0 <= k < m.actions().len() && m.actions()[k] == a;
                assert(m.actions()[k] is Raise);
            }
        },
        _ => {},
    }
}

/// The states the walk can start from: sound (well-formed, or with stacks
/// too short for the blinds), at most `max_n_raises`
/// raises made, and at a decision the seat to act can act.
pub open spec fn walkable(m: StateModel, max_n_raises: u8) -> bool {
    &&& sound(m)
    &&& m.n_raises <= max_n_raises
    &&& (max_n_raises < u8::MAX || raise_room(m))
    &&& m.node_type() is Decision ==> m.can_act(m.to_act as int)
}

/// The decision nodes at and below `m` in depth-first order: `m` itself,
/// then for each legal action in order the nodes below the state it leads
/// to, skipping actions that make more than `max_n_raises` raises.
pub open spec fn walk_nodes(m: StateModel, hist: Seq<u8>, log: Seq<ActionRecord>, max_n_raises: u8) -> Seq<TreeNodeModel>
    decreases raises_left(m, max_n_raises), actors_left(m), pending_left(m), turns_to_pending(m), m.actions().len() + 1,
    when walkable(m, max_n_raises)
{
    if m.node_type() is Decision {
        seq![node_at(m, hist, log)] + walk_from(m, hist, log, max_n_raises, 0)
    } else {
        Seq::empty()
    }
}

/// The nodes below the children of the decision state `m` for the actions
/// from index `k` on.
pub open spec fn walk_from(m: StateModel, hist: Seq<u8>, log: Seq<ActionRecord>, max_n_raises: u8, k: int) -> Seq<TreeNodeModel>
    decreases raises_left(m, max_n_raises), actors_left(m), pending_left(m), turns_to_pending(m), m.actions().len() - k,
    when walkable(m, max_n_raises) && m.node_type() is Decision && 0 <= k
{
    if k >= m.actions().len() {
        Seq::empty()
    } else {
        let a = m.actions()[k];
        let c = m.apply(a);
        let rest = walk_from(m, hist, log, max_n_raises, k + 1);
        if c.n_raises > max_n_raises {
            rest
        } else {
            proof {
                assert(m.actions().contains(a));
                if max_n_raises == u8::MAX {
                    lemma_raise_room_bound(m);
                }
                lemma_walk_step(m, a, max_n_raises);
            }
            walk_nodes(
                c,
                hist.push(k as u8),
                log.push(ActionRecord { position: m.to_act as usize, action: a, raise_depth: m.n_raises }),
                max_n_raises,
            ) + rest
        }
    }
}

fn copy_history(h: &Vec<u8>) -> (r: Vec<u8>)
    ensures
        r@ == h@,
{
    let mut r: Vec<u8> = Vec::new();
    let mut i: usize = 0;
    while i < h.len()
        invariant
            i <= h@.len(),
            r@ == h@.take(i as int),
        decreases h.len() - i,
    {
        r.push(h[i]);
        i += 1;
        assert(r@ =~= h@.take(i as int));
    }
    assert(h@.take(h@.len() as int) =~= h@);
    r
}

/// The node for the decision state `state`.
fn make_node(state: &PreflopState, actions: &Vec<PreflopAction>, history: &Vec<u8>, log: &Vec<ActionRecord>) -> (r: TreeNode)
    requires
        state@.to_act < NUM_PLAYERS,
        actions@ == state@.actions(),
        forall|i: int| 0 <= i < log@.len() ==> (#[trigger] log@[i]).position < NUM_PLAYERS,
    ensures
        r@ == node_at(state@, history@, log@),
{
    let p = state.to_act as usize;
    let (spot_name, line) = build_label(p, log.as_slice());
    let mut available: Vec<String> = Vec::new();
    let mut i: usize = 0;
    while i < actions.len()
        invariant
            i <= actions@.len(),
            available@.len() == i,
            forall|j: int| 0 <= j < i ==> (#[trigger] available@[j])@ == action_text(actions@[j]),
        decreases actions.len() - i,
    {
        available.push(actions[i].label());
        i += 1;
    }
    let r = TreeNode {
        spot_name,
        position: String::from_str(position_name(p)),
        position_idx: p,
        history: copy_history(history),
        line,
        available_actions: available,
        actions: actions.clone(),
    };
    assert(r@.available_actions =~= state@.actions().map_values(|a: PreflopAction| action_text(a)));
    assert(r@.actions =~= state@.actions());
    r
}

/// Appends the decision nodes at and below `state` to `out`; `history` and
/// `log` hold the line to `state` and are given back unchanged.
fn walk(
    state: &PreflopState,
    history: &mut Vec<u8>,
    log: &mut Vec<ActionRecord>,
    max_n_raises: u8,
    out: &mut Vec<TreeNode>,
)
    requires
        walkable(state@, max_n_raises),
        forall|i: int| 0 <= i < old(log)@.len() ==> (#[trigger] old(log)@[i]).position < NUM_PLAYERS,
    ensures
        node_views(final(out)@) == node_views(old(out)@) + walk_nodes(state@, old(history)@, old(log)@, max_n_raises),
        final(history)@ == old(history)@,
        final(log)@ == old(log)@,
    decreases raises_left(state@, max_n_raises), actors_left(state@), pending_left(state@), turns_to_pending(state@),
        state@.actions().len() + 1,
{
    let ghost m = state@;
    let ghost h0 = history@;
    let ghost l0 = log@;
    let ghost start = node_views(out@);
    match state.node_type() {
        PreflopNodeType::Decision(_) => {},
        _ => {
            assert(node_views(out@) =~= start + walk_nodes(m, h0, l0, max_n_raises));
            return;
        },
    }
    let actions = state.actions();
    let node = make_node(state, &actions, history, log);
    out.push(node);
    assert(node_views(out@) =~= start + seq![node_at(m, h0, l0)]);
    let mut idx: usize = 0;
    while idx < actions.len()
        invariant
            m == state@,
            walkable(m, max_n_raises),
            m.node_type() is Decision,
            actions@ == m.actions(),
            idx <= actions@.len(),
            history@ == h0,
            log@ == l0,
            forall|i: int| 0 <= i < l0.len() ==> (#[trigger] l0[i]).position < NUM_PLAYERS,
            node_views(out@) + walk_from(m, h0, l0, max_n_raises, idx as int)
                == start + seq![node_at(m, h0, l0)] + walk_from(m, h0, l0, max_n_raises, 0),
        decreases actions.len() - idx,
    {
        let a = actions[idx];
        let ghost rest = walk_from(m, h0, l0, max_n_raises, idx + 1);
        proof {
            assert(m.actions().contains(a));
            if max_n_raises == u8::MAX {
                lemma_raise_room_bound(m);
            }
            law_legal_action_keeps_sound(m, a);
        }
        let child = state.apply(a);
        if child.n_raises <= max_n_raises {
            proof {
                if max_n_raises == u8::MAX {
                    lemma_raise_room_kept(m, a);
                }
                lemma_walk_step(m, a, max_n_raises);
                if child@.node_type() is Decision {
                    let i = choose|i: int| 0 <= i < NUM_PLAYERS && #[trigger] child@.can_act(i)
                        && !(child@.has_acted[i] && child@.bets[i] == child@.max_bet());
                    law_turn_passes_to_actor(m, a, i);
                }
            }
            let ghost before = node_views(out@);
            let rec = ActionRecord { position: state.to_act as usize, action: a, raise_depth: state.n_raises };
            history.push(idx as u8);
            log.push(rec);
            assert forall|i: int| 0 <= i < log@.len() implies (#[trigger] log@[i]).position < NUM_PLAYERS by {
                if i < l0.len() {
                    assert(log@[i] == l0[i]);
                }
            }
            walk(&child, history, log, max_n_raises, out);
            let _ = history.pop();
            let _ = log.pop();
            assert(history@ =~= h0);
            assert(log@ =~= l0);
            proof {
                let sub = walk_nodes(child@, h0.push(idx as u8), l0.push(rec), max_n_raises);
                assert(walk_from(m, h0, l0, max_n_raises, idx as int) == sub + rest);
                assert(node_views(out@) == before + sub);
                assert(node_views(out@) + rest =~= before + (sub + rest));
            }
        } else {
            assert(walk_from(m, h0, l0, max_n_raises, idx as int) == rest);
        }
        idx += 1;
    }
    assert(walk_from(m, h0, l0, max_n_raises, idx as int) =~= Seq::<TreeNodeModel>::empty());
    assert(node_views(out@) =~= start + walk_nodes(m, h0, l0, max_n_raises));
}

/// Every decision node of the game tree of a hand of `num_players` players
/// with `stack_chips` chips each, in depth-first order, following raises up
/// to `max_n_raises` raises in total (2 reaches the spots facing a 3-bet,
/// 3 those facing a 4-bet). With no limit short of `u8::MAX` raises, the
/// configuration has at most 248 raise depths: then no line can make more
/// than `u8::MAX - 1` raises before the last one, so the raise count never
/// overflows.
pub fn tree_nodes(config: &PreflopBetConfig, num_players: usize, stack_chips: i32, max_n_raises: u8) -> (r: Vec<TreeNode>)
    requires
        2 <= num_players <= NUM_PLAYERS,
        stack_chips >= i32::MIN + 2,
        max_n_raises < u8::MAX || config@.raise_sizes.len() <= 248,
    ensures
        node_views(r@) == walk_nodes(
            generic_start(num_players as int, stack_chips as int, config@),
            Seq::empty(),
            Seq::empty(),
            max_n_raises,
        ),
{
    let root = PreflopState::new_generic(num_players, stack_chips, config.clone());
    proof {
        law_generic_start_is_sound(num_players as int, stack_chips as int, config@);
    }
    let mut history: Vec<u8> = Vec::new();
    let mut log: Vec<ActionRecord> = Vec::new();
    let mut out: Vec<TreeNode> = Vec::new();
    walk(&root, &mut history, &mut log, max_n_raises, &mut out);
    assert(node_views(Seq::<TreeNode>::empty()) =~= Seq::<TreeNodeModel>::empty());
    assert(history@ =~= Seq::<u8>::empty());
    out
}

// ---------------------------------------------------------------------------
// Histories lead back to their nodes
// ---------------------------------------------------------------------------

/// The state reached from `m` by taking, in turn, the legal action at each
/// index of `h`.
pub open spec fn replay(m: StateModel, h: Seq<u8>) -> StateModel
    decreases h.len(),
{
    if h.len() == 0 {
        m
    } else {
        let s = replay(m, h.drop_last());
        s.apply(s.actions()[h.last() as int])
    }
}

/// Every configured list of raise sizes is short enough that the index of
/// any legal action fits in a `u8`.
pub open spec fn indices_fit(c: ConfigModel) -> bool {
    forall|d: int| 0 <= d < c.raise_sizes.len() ==> #[trigger] c.raise_sizes[d].len() <= 253
}

proof fn lemma_filter_map_len<A, B>(s: Seq<A>, f: spec_fn(A) -> Option<B>)
    ensures
        s.filter_map(f).len() <= s.len(),
    decreases s.len(),
{
    if s.len() > 0 {
        lemma_filter_map_len(s.drop_last(), f);
    }
}

pub proof fn lemma_actions_fit(m: StateModel)
    requires
        indices_fit(m.config),
    ensures
        m.actions().len() <= 256,
{
    lemma_filter_map_len(m.depth_sizes(), m.facing_pick());
    lemma_filter_map_len(m.depth_sizes(), m.unfaced_pick());
}

/// What a node claims of the state its history leads to from `root`.
pub open spec fn replays_to(root: StateModel, n: TreeNodeModel, max_n_raises: u8) -> bool {
    let s = replay(root, n.history);
    &&& s.node_type() is Decision
    &&& s.to_act as int == n.position_idx as int
    &&& s.actions() == n.actions
    &&& s.n_raises <= max_n_raises
}

/// A child the walk follows can itself be walked.
proof fn lemma_child_walkable(m: StateModel, a: PreflopAction, max_n_raises: u8)
    requires
        walkable(m, max_n_raises),
        m.node_type() is Decision,
        m.actions().contains(a),
        m.apply(a).n_raises <= max_n_raises,
    ensures
        walkable(m.apply(a), max_n_raises),
        m.apply(a).config == m.config,
{
    if max_n_raises == u8::MAX {
        lemma_raise_room_bound(m);
    }
    law_legal_action_keeps_sound(m, a);
    if max_n_raises == u8::MAX {
        lemma_raise_room_kept(m, a);
    }
    let c = m.apply(a);
    if c.node_type() is Decision {
        let i = choose|i: int| 0 <= i < NUM_PLAYERS && #[trigger] c.can_act(i)
            && !(c.has_acted[i] && c.bets[i] == c.max_bet());
        law_turn_passes_to_actor(m, a, i);
    }
}

/// Every node at and below `m` replays from `root` to a decision state
/// where its seat acts with its actions, given that `hist` replays to `m`.
pub proof fn law_walk_nodes_replay(root: StateModel, m: StateModel, hist: Seq<u8>, log: Seq<ActionRecord>, max_n_raises: u8)
    requires
        walkable(m, max_n_raises),
        indices_fit(m.config),
        replay(root, hist) == m,
    ensures
        forall|i: int| 0 <= i < walk_nodes(m, hist, log, max_n_raises).len()
            ==> replays_to(root, #[trigger] walk_nodes(m, hist, log, max_n_raises)[i], max_n_raises),
    decreases raises_left(m, max_n_raises), actors_left(m), pending_left(m), turns_to_pending(m), m.actions().len() + 1,
{
    if m.node_type() is Decision {
        let head = seq![node_at(m, hist, log)];
        let tail = walk_from(m, hist, log, max_n_raises, 0);
        lemma_walk_from_replay(root, m, hist, log, max_n_raises, 0);
        assert(walk_nodes(m, hist, log, max_n_raises) == head + tail);
        assert forall|i: int| 0 <= i < walk_nodes(m, hist, log, max_n_raises).len()
            implies replays_to(root, #[trigger] walk_nodes(m, hist, log, max_n_raises)[i], max_n_raises) by {
            if i == 0 {
                assert(walk_nodes(m, hist, log, max_n_raises)[0] == node_at(m, hist, log));
            } else {
                assert(walk_nodes(m, hist, log, max_n_raises)[i] == tail[i - 1]);
            }
        }
    }
}

proof fn lemma_walk_from_replay(root: StateModel, m: StateModel, hist: Seq<u8>, log: Seq<ActionRecord>, max_n_raises: u8, k: int)
    requires
        walkable(m, max_n_raises),
        m.node_type() is Decision,
        indices_fit(m.config),
        replay(root, hist) == m,
        0 <= k,
    ensures
        forall|i: int| 0 <= i < walk_from(m, hist, log, max_n_raises, k).len()
            ==> replays_to(root, #[trigger] walk_from(m, hist, log, max_n_raises, k)[i], max_n_raises),
    decreases raises_left(m, max_n_raises), actors_left(m), pending_left(m), turns_to_pending(m), m.actions().len() - k,
{
    if k < m.actions().len() {
        let a = m.actions()[k];
        let c = m.apply(a);
        let rest = walk_from(m, hist, log, max_n_raises, k + 1);
        lemma_walk_from_replay(root, m, hist, log, max_n_raises, k + 1);
        if c.n_raises <= max_n_raises {
            assert(m.actions().contains(a));
            if max_n_raises == u8::MAX {
                lemma_raise_room_bound(m);
            }
            lemma_walk_step(m, a, max_n_raises);
            lemma_child_walkable(m, a, max_n_raises);
            lemma_actions_fit(m);
            let h2 = hist.push(k as u8);
            let log2 = log.push(ActionRecord { position: m.to_act as usize, action: a, raise_depth: m.n_raises });
            assert(h2.drop_last() =~= hist);
            assert(replay(root, h2) == c);
            law_walk_nodes_replay(root, c, h2, log2, max_n_raises);
            let sub = walk_nodes(c, h2, log2, max_n_raises);
            assert(walk_from(m, hist, log, max_n_raises, k) == sub + rest);
            assert forall|i: int| 0 <= i < walk_from(m, hist, log, max_n_raises, k).len()
                implies replays_to(root, #[trigger] walk_from(m, hist, log, max_n_raises, k)[i], max_n_raises) by {
                if i < sub.len() {
                    assert(walk_from(m, hist, log, max_n_raises, k)[i] == sub[i]);
                } else {
                    assert(walk_from(m, hist, log, max_n_raises, k)[i] == rest[i - sub.len()]);
                }
            }
        } else {
            assert(walk_from(m, hist, log, max_n_raises, k) == rest);
        }
    }
}

/// Every node that [`tree_nodes`] lists is reached by its history: taking the
/// actions at those indices from the start of the hand leads to a decision
/// of its seat, with its list of actions and at most `max_n_raises` raises.
pub proof fn law_tree_histories_reach_their_nodes(config: ConfigModel, num_players: int, stack_chips: int, max_n_raises: u8)
    requires
        2 <= num_players <= NUM_PLAYERS,
        i32::MIN + 2 <= stack_chips <= i32::MAX,
        max_n_raises < u8::MAX || config.raise_sizes.len() <= 248,
        indices_fit(config),
    ensures
        forall|i: int| 0 <= i < walk_nodes(generic_start(num_players, stack_chips, config), Seq::empty(), Seq::empty(), max_n_raises).len()
            ==> replays_to(
                generic_start(num_players, stack_chips, config),
                #[trigger] walk_nodes(generic_start(num_players, stack_chips, config), Seq::empty(), Seq::empty(), max_n_raises)[i],
                max_n_raises,
            ),
{
    let root = generic_start(num_players, stack_chips, config);
    law_generic_start_is_sound(num_players, stack_chips, config);
    assert(root.can_act(root.to_act as int));
    law_walk_nodes_replay(root, root, Seq::empty(), Seq::empty(), max_n_raises);
}

} // verus!
