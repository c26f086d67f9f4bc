//! Heads-up matchups reached preflop: single-raised, 3-bet and 4-bet pots.
//! Each matchup names the pot and effective stack after the final call and,
//! for each side, the decision points whose action probabilities multiply
//! into its range.

use vstd::prelude::*;
use crate::action::PreflopAction;
use crate::state::{PreflopState, StateModel, NUM_PLAYERS, prefix_sum, six_max_start, generic_start};
use crate::labels::{position_name, seat_name};
use crate::lines::{
    Line, LineModel, fold_line, take_action, first_raise_from, first_call_from, reach_seat, first_raise_index,
    first_call_index, lemma_first_index_range, same_seat_chips,
};
use crate::charts::{root_line, three_bet_pairs, four_bet_pairs, opt_seq};
use crate::config::PreflopBetConfig;
use crate::config::ConfigModel;
use crate::laws::{sound, law_generic_start_is_wf, law_generic_start_is_sound, law_generic_start_matches_presets, law_legal_action_keeps_sound, law_legal_action_keeps_wf, law_short_stacks_only_fold_check_or_shove, law_apply_conserves_seat_chips};
use crate::blueprint::PreflopBlueprint;

verus! {

/// A decision point and the index of the action taken there.
pub struct RangeStep {
    pub history: Vec<u8>,
    pub action_idx: usize,
}

/// One side of a matchup: its seat name and the decision points of its range.
pub struct SidePlan {
    pub position: String,
    pub steps: Vec<RangeStep>,
}

/// A matchup: its name, the pot and effective stack after the final call,
/// and the two sides.
pub struct MatchupPlan {
    pub matchup: String,
    pub pot_chips: i32,
    pub eff_stack_chips: i32,
    pub opener: SidePlan,
    pub caller: SidePlan,
}

pub struct SideModel {
    pub position: Seq<char>,
    pub steps: Seq<(Seq<u8>, int)>,
}

pub struct MatchupModel {
    pub matchup: Seq<char>,
    pub pot_chips: int,
    pub eff_stack_chips: int,
    pub opener: SideModel,
    pub caller: SideModel,
}

impl View for SidePlan {
    type V = SideModel;

    open spec fn view(&self) -> SideModel {
        SideModel {
            position: self.position@,
            steps: self.steps@.map_values(|s: RangeStep| (s.history@, s.action_idx as int)),
        }
    }
}

impl View for MatchupPlan {
    type V = MatchupModel;

    open spec fn view(&self) -> MatchupModel {
        MatchupModel {
            matchup: self.matchup@,
            pot_chips: self.pot_chips as int,
            eff_stack_chips: self.eff_stack_chips as int,
            opener: self.opener@,
            caller: self.caller@,
        }
    }
}

/// The views of a list of matchups.
pub open spec fn matchup_views(v: Seq<MatchupPlan>) -> Seq<MatchupModel> {
    v.map_values(|p: MatchupPlan| p@)
}

/// The matchup once the seat to act in `l` calls: pot and effective stack of
/// seats `o` and `c` after the call.
#[verifier::opaque]
pub open spec fn settle(l: LineModel, name: Seq<char>, o: int, c: int, opener_steps: Seq<(Seq<u8>, int)>, caller_steps: Seq<(Seq<u8>, int)>) -> MatchupModel {
    let s = l.state.apply(PreflopAction::Call);
    MatchupModel {
        matchup: name,
        pot_chips: s.pot(),
        eff_stack_chips: if s.stacks[o] < s.stacks[c] { s.stacks[o] as int } else { s.stacks[c] as int },
        opener: SideModel { position: seat_name(o), steps: opener_steps },
        caller: SideModel { position: seat_name(c), steps: caller_steps },
    }
}

/// The name of a matchup of the given kind.
pub open spec fn matchup_name(kind: int, o: int, c: int) -> Seq<char> {
    if kind == 1 {
        seat_name(o) + " vs "@ + seat_name(c)
    } else if kind == 2 {
        seat_name(o) + " open vs "@ + seat_name(c) + " 3bet"@
    } else {
        seat_name(o) + " 4bet vs "@ + seat_name(c) + " call"@
    }
}

/// The views of a list of range steps.
pub open spec fn step_views(v: Seq<RangeStep>) -> Seq<(Seq<u8>, int)> {
    v.map_values(|s: RangeStep| (s.history@, s.action_idx as int))
}

/// Seats from `first` up to `o` fold, `o` opens with its first listed raise
/// and the seats between `o` and `c` fold: the line before the open, the
/// index of the open, and the line where `c` is to act.
pub open spec fn open_then_fold(root: StateModel, first: int, o: int, c: int) -> Option<(LineModel, int, LineModel)> {
    let l1 = fold_line(root_line(root), (o - first) as nat);
    match first_raise_from(l1.state.actions(), 0) {
        None => None,
        Some(i1) => Some((l1, i1, fold_line(take_action(l1, i1), (c - o - 1) as nat))),
    }
}

/// After [`open_then_fold`], `c` 3-bets with its first listed raise and the
/// table folds round to `o`: adds the index of the 3-bet and the line where
/// `o` is to act.
pub open spec fn three_bet_reached(root: StateModel, first: int, o: int, c: int, guarded: bool) -> Option<(LineModel, int, LineModel, int, LineModel)> {
    match open_then_fold(root, first, o, c) {
        None => None,
        Some((l1, i1, l3)) => match first_raise_from(l3.state.actions(), 0) {
            None => None,
            Some(i2) => match reach_seat(take_action(l3, i2), o, guarded) {
                None => None,
                Some(l5) => Some((l1, i1, l3, i2, l5)),
            },
        },
    }
}

/// After [`three_bet_reached`], `o` 4-bets with its first listed raise and
/// the table folds round to `c`: the index of the 4-bet and the line where
/// `c` is to act.
pub open spec fn four_bet_reached(l5: LineModel, c: int, guarded: bool) -> Option<(int, LineModel)> {
    match first_raise_from(l5.state.actions(), 0) {
        None => None,
        Some(i3) => match reach_seat(take_action(l5, i3), c, guarded) {
            None => None,
            Some(l7) => Some((i3, l7)),
        },
    }
}

/// After [`three_bet_reached`] gave `(l1, i1, l3, i2, l5)`: the 4-bet
/// matchup, where `c` calls the 4-bet of `o`.
pub open spec fn four_bet_matchup(l1: LineModel, i1: int, l3: LineModel, i2: int, l5: LineModel, o: int, c: int, guarded: bool) -> Option<MatchupModel> {
    match four_bet_reached(l5, c, guarded) {
        None => None,
        Some((i3, l7)) => match first_call_from(l7.state.actions(), 0) {
            None => None,
            Some(i4) => Some(settle(l7, matchup_name(3, o, c), o, c,
                seq![(l1.history, i1), (l5.history, i3)], seq![(l3.history, i2), (l7.history, i4)])),
        },
    }
}

/// The matchup of the given kind between opener `o` and seat `c`:
/// 1: after [`open_then_fold`], `c` calls ("{o} vs {c}");
/// 2: after [`three_bet_reached`], `o` calls ("{o} open vs {c} 3bet");
/// 3: after [`four_bet_reached`], `c` calls ("{o} 4bet vs {c} call").
/// Each call is the caller's first listed call; `None` when a seat on the
/// line has no such raise or call, or the turn does not come back.
#[verifier::opaque]
pub open spec fn matchup_at(root: StateModel, first: int, kind: int, guarded: bool, o: int, c: int) -> Option<MatchupModel> {
    if kind == 1 {
        match open_then_fold(root, first, o, c) {
            None => None,
            Some((l1, i1, l3)) => match first_call_from(l3.state.actions(), 0) {
                None => None,
                Some(i2) => Some(settle(l3, matchup_name(1, o, c), o, c,
                    seq![(l1.history, i1)], seq![(l3.history, i2)])),
            },
        }
    } else {
        match three_bet_reached(root, first, o, c, guarded) {
            None => None,
            Some((l1, i1, l3, i2, l5)) => if kind == 2 {
                match first_call_from(l5.state.actions(), 0) {
                    None => None,
                    Some(i3) => Some(settle(l5, matchup_name(2, o, c), o, c,
                        seq![(l1.history, i1), (l5.history, i3)], seq![(l3.history, i2)])),
                }
            } else {
                four_bet_matchup(l1, i1, l3, i2, l5, o, c, guarded)
            },
        }
    }
}

/// The matchups of one kind for every pair `(o, c)` with `first <= o < c`,
/// `o` not the BB, in order of `o` then `c`, taking the pairs `o * 6 + c` below `n`.
pub open spec fn all_pairs_matchups(root: StateModel, first: int, kind: int, guarded: bool, n: int) -> Seq<MatchupModel>
    decreases n,
{
    if n <= 0 {
        Seq::empty()
    } else {
        let o = (n - 1) / 6;
        let c = (n - 1) % 6;
        all_pairs_matchups(root, first, kind, guarded, n - 1) + if first <= o < 5 && o < c {
            opt_seq(matchup_at(root, first, kind, guarded, o, c))
        } else {
            Seq::empty()
        }
    }
}

/// The 6-max matchups of one kind for the first `n` pairs of `pairs`.
pub open spec fn listed_matchups(root: StateModel, kind: int, pairs: Seq<(int, int)>, n: int) -> Seq<MatchupModel>
    decreases n,
{
    if n <= 0 {
        Seq::empty()
    } else {
        listed_matchups(root, kind, pairs, n - 1) + opt_seq(matchup_at(root, 0, kind, false, pairs[n - 1].0, pairs[n - 1].1))
    }
}

/// The chips, stack plus bet, of the first `n` seats.
pub open spec fn chips_below(m: StateModel, n: int) -> int
    decreases n,
{
    if n <= 0 {
        0
    } else {
        chips_below(m, n - 1) + m.stacks[n - 1] + m.bets[n - 1]
    }
}

/// The seats hold at most `cap` chips together, in stacks and bets.
pub open spec fn chips_at_most(m: StateModel, cap: int) -> bool {
    chips_below(m, NUM_PLAYERS as int) <= cap
}

proof fn lemma_same_chips_below(a: StateModel, b: StateModel, n: int)
    requires
        same_seat_chips(a, b),
        0 <= n <= NUM_PLAYERS,
    ensures
        chips_below(a, n) == chips_below(b, n),
    decreases n,
{
    if n > 0 {
        lemma_same_chips_below(a, b, n - 1);
        assert(a.stacks[n - 1] + a.bets[n - 1] == b.stacks[n - 1] + b.bets[n - 1]);
    }
}

/// At the start of a hand of `n` players with `stack` chips each, the
/// seats hold `n * stack` chips together.
proof fn lemma_start_chips(n: int, stack: int, config: ConfigModel)
    requires
        2 <= n <= NUM_PLAYERS,
        i32::MIN + 2 <= stack <= i32::MAX,
    ensures
        chips_below(generic_start(n, stack, config), NUM_PLAYERS as int) == n * stack,
{
    let m = generic_start(n, stack, config);
    let first = NUM_PLAYERS - n;
    assert forall|i: int| 0 <= i < NUM_PLAYERS implies #[trigger] m.stacks[i] + m.bets[i] == (if i < first { 0 } else { stack }) by {}
    assert(chips_below(m, 0) == 0);
    assert(chips_below(m, 1) == m.stacks[0] + m.bets[0]);
    assert(chips_below(m, 2) == chips_below(m, 1) + m.stacks[1] + m.bets[1]);
    assert(chips_below(m, 3) == chips_below(m, 2) + m.stacks[2] + m.bets[2]);
    assert(chips_below(m, 4) == chips_below(m, 3) + m.stacks[3] + m.bets[3]);
    assert(chips_below(m, 5) == chips_below(m, 4) + m.stacks[4] + m.bets[4]);
    assert(chips_below(m, 6) == chips_below(m, 5) + m.stacks[5] + m.bets[5]);
    assert(m.stacks[0] + m.bets[0] == (if 0 < first { 0 } else { stack }));
    assert(m.stacks[1] + m.bets[1] == (if 1 < first { 0 } else { stack }));
    assert(m.stacks[2] + m.bets[2] == (if 2 < first { 0 } else { stack }));
    assert(m.stacks[3] + m.bets[3] == (if 3 < first { 0 } else { stack }));
    assert(m.stacks[4] + m.bets[4] == stack);
    assert(m.stacks[5] + m.bets[5] == stack);
    if n == 2 {
        assert(n * stack == stack + stack);
    } else if n == 3 {
        assert(n * stack == stack + stack + stack);
    } else if n == 4 {
        assert(n * stack == stack + stack + stack + stack);
    } else if n == 5 {
        assert(n * stack == stack + stack + stack + stack + stack);
    } else {
        assert(n * stack == stack + stack + stack + stack + stack + stack);
    }
}

fn pot_of(s: &PreflopState) -> (r: i32)
    requires
        s@.wf(),
        chips_at_most(s@, i32::MAX as int),
    ensures
        r == s@.pot(),
{
    let mut sum: i64 = 0;
    let mut i: usize = 0;
    while i < NUM_PLAYERS
        invariant
            s@.wf(),
            chips_at_most(s@, i32::MAX as int),
            i <= NUM_PLAYERS,
            sum == prefix_sum(s@.bets, i as int),
            0 <= sum <= chips_below(s@, i as int),
            chips_below(s@, i as int) <= i * (i32::MAX as int),
        decreases NUM_PLAYERS - i,
    {
        assert(0 <= s@.stacks[i as int]);
        assert(s@.stacks[i as int] + s@.bets[i as int] <= i32::MAX);
        sum = sum + s.bets[i] as i64;
        i += 1;
    }
    sum as i32
}

/// `line` after the seat to act takes its first listed raise; `None`, and
/// the line as it was, when it has none. Gives the index taken.
fn take_first_raise(line: &mut Line) -> (r: Option<usize>)
    requires
        sound(old(line)@.state),
        old(line)@.state.n_raises < u8::MAX,
    ensures
        match first_raise_from(old(line)@.state.actions(), 0) {
            Some(i) => r matches Some(x) && x as int == i && final(line)@ == take_action(old(line)@, i),
            None => r is None,
        },
        sound(final(line)@.state),
        final(line)@.state.n_raises <= old(line)@.state.n_raises + 1,
        final(line)@.state.config == old(line)@.state.config,
        same_seat_chips(final(line)@.state, old(line)@.state),
{
    let acts = line.state.actions();
    proof { lemma_first_index_range(acts@); }
    match first_raise_index(&acts) {
        Some(i) => {
            line.take(&acts, i);
            Some(i)
        },
        None => None,
    }
}

/// The matchup once the seat to act in `line` calls, when it can.
fn settle_at(line: &Line, kind: u8, o: usize, c: usize, opener_steps: Vec<RangeStep>, caller_steps: Vec<RangeStep>) -> (r: Option<(usize, MatchupPlan)>)
    requires
        sound(line@.state),
        line@.state.n_raises < u8::MAX,
        chips_at_most(line@.state, i32::MAX as int),
        o < NUM_PLAYERS,
        c < NUM_PLAYERS,
        1 <= kind <= 3,
    ensures
        match first_call_from(line@.state.actions(), 0) {
            Some(i) => r matches Some((x, p)) && x as int == i && p@ == settle(line@, matchup_name(kind as int, o as int, c as int),
                o as int, c as int, step_views(opener_steps@), step_views(caller_steps@)),
            None => r is None,
        },
{
    let acts = line.state.actions();
    proof { lemma_first_index_range(acts@); }
    let ci = match first_call_index(&acts) {
        Some(i) => i,
        None => return None,
    };
    proof {
        assert(line@.state.actions()[ci as int] == PreflopAction::Call);
        assert(line@.state.actions().contains(PreflopAction::Call));
        if !line@.state.wf() {
            law_short_stacks_only_fold_check_or_shove(line@.state, PreflopAction::Call);
        }
        law_legal_action_keeps_wf(line@.state, PreflopAction::Call);
        law_apply_conserves_seat_chips(line@.state, PreflopAction::Call);
    }
    let s = line.state.apply(PreflopAction::Call);
    proof {
        assert(same_seat_chips(s@, line@.state));
        lemma_same_chips_below(s@, line@.state, NUM_PLAYERS as int);
    }
    let pot = pot_of(&s);
    let eff = if s.stacks[o] < s.stacks[c] { s.stacks[o] } else { s.stacks[c] };
    let name = if kind == 1 {
        String::from_str(position_name(o)).concat(" vs ").concat(position_name(c))
    } else if kind == 2 {
        String::from_str(position_name(o)).concat(" open vs ").concat(position_name(c)).concat(" 3bet")
    } else {
        String::from_str(position_name(o)).concat(" 4bet vs ").concat(position_name(c)).concat(" call")
    };
    let p = MatchupPlan {
        matchup: name,
        pot_chips: pot,
        eff_stack_chips: eff,
        opener: SidePlan { position: String::from_str(position_name(o)), steps: opener_steps },
        caller: SidePlan { position: String::from_str(position_name(c)), steps: caller_steps },
    };
    proof { reveal(settle); }
    Some((ci, p))
}

fn step_at(line: &Line, i: usize) -> (r: RangeStep)
    ensures
        r.history@ == line@.history,
        r.action_idx == i,
{
    RangeStep { history: line.history_copy(), action_idx: i }
}

/// A line that keeps every seat's chips at or below the cap of the root and
/// has made at most `raises` raises.
pub open spec fn line_ok(l: LineModel, raises: int) -> bool {
    &&& sound(l.state)
    &&& l.state.n_raises <= raises
    &&& chips_at_most(l.state, i32::MAX as int)
}

proof fn lemma_same_chips_trans(a: StateModel, b: StateModel, c: StateModel)
    requires
        same_seat_chips(a, b),
        same_seat_chips(b, c),
    ensures
        same_seat_chips(a, c),
{
    assert forall|i: int| 0 <= i < NUM_PLAYERS implies #[trigger] a.stacks[i] + a.bets[i] == c.stacks[i] + c.bets[i] by {
        assert(a.stacks[i] + a.bets[i] == b.stacks[i] + b.bets[i]);
        assert(b.stacks[i] + b.bets[i] == c.stacks[i] + c.bets[i]);
    }
}

proof fn lemma_chips_kept(m: StateModel, r0: StateModel)
    requires
        same_seat_chips(m, r0),
        chips_at_most(r0, i32::MAX as int),
    ensures
        chips_at_most(m, i32::MAX as int),
{
    lemma_same_chips_below(m, r0, NUM_PLAYERS as int);
}

fn open_then_fold_at(root: &PreflopState, first: usize, o: usize, c: usize) -> (r: Option<(Vec<u8>, usize, Line)>)
    requires
        sound(root@),
        root@.n_raises == 0,
        chips_at_most(root@, i32::MAX as int),
        first <= o < 5,
        o < c < NUM_PLAYERS,
    ensures
        match open_then_fold(root@, first as int, o as int, c as int) {
            Some((l1, i1, l3)) => r matches Some((h, i, l)) && h@ == l1.history && i == i1 && l@ == l3 && line_ok(l@, 1),
            None => r is None,
        },
{
    let mut line = Line::start(root.clone());
    line.fold_times(o - first);
    let ghost l1 = line@;
    let h1 = line.history_copy();
    let i1 = match take_first_raise(&mut line) {
        Some(i) => i,
        None => return None,
    };
    let ghost l2 = line@;
    line.fold_times(c - o - 1);
    proof {
        lemma_same_chips_trans(l2.state, l1.state, root@);
        lemma_same_chips_trans(line@.state, l2.state, root@);
        lemma_chips_kept(line@.state, root@);
        assert(root_line(root@) == (LineModel { history: Seq::empty(), state: root@ }));
        assert(l1 == fold_line(root_line(root@), (o - first) as nat));
        assert(first_raise_from(l1.state.actions(), 0) == Some(i1 as int));
        assert(l2 == take_action(l1, i1 as int));
        assert(line@ == fold_line(l2, (c - o - 1) as nat));
        assert(open_then_fold(root@, first as int, o as int, c as int) == Some((l1, i1 as int, line@)));
    }
    Some((h1, i1, line))
}

fn three_bet_reached_at(root: &PreflopState, first: usize, o: usize, c: usize, guarded: bool) -> (r: Option<(Vec<u8>, usize, Vec<u8>, usize, Line)>)
    requires
        sound(root@),
        root@.n_raises == 0,
        chips_at_most(root@, i32::MAX as int),
        first <= o < 5,
        o < c < NUM_PLAYERS,
    ensures
        match three_bet_reached(root@, first as int, o as int, c as int, guarded) {
            Some((l1, i1, l3, i2, l5)) => r matches Some((h1, j1, h3, j2, l)) && h1@ == l1.history && j1 == i1
                && h3@ == l3.history && j2 == i2 && l@ == l5 && line_ok(l@, 2),
            None => r is None,
        },
{
    let (h1, i1, mut line) = match open_then_fold_at(root, first, o, c) {
        Some(v) => v,
        None => return None,
    };
    let ghost l3 = line@;
    let h3 = line.history_copy();
    let i2 = match take_first_raise(&mut line) {
        Some(i) => i,
        None => return None,
    };
    let ghost l4 = line@;
    if !line.fold_round_to(o, guarded) {
        return None;
    }
    proof {
        lemma_same_chips_trans(line@.state, l4.state, l3.state);
        lemma_chips_kept(line@.state, l3.state);
    }
    Some((h1, i1, h3, i2, line))
}

fn four_bet_reached_at(line: &mut Line, c: usize, guarded: bool) -> (r: Option<usize>)
    requires
        line_ok(old(line)@, 2),
        c < NUM_PLAYERS,
    ensures
        match four_bet_reached(old(line)@, c as int, guarded) {
            Some((i3, l7)) => r matches Some(x) && x as int == i3 && final(line)@ == l7 && line_ok(final(line)@, 3),
            None => r is None,
        },
{
    let ghost l5 = line@;
    let i3 = match take_first_raise(line) {
        Some(i) => i,
        None => return None,
    };
    let ghost l6 = line@;
    if !line.fold_round_to(c, guarded) {
        return None;
    }
    proof {
        lemma_same_chips_trans(line@.state, l6.state, l5.state);
        lemma_chips_kept(line@.state, l5.state);
    }
    Some(i3)
}

fn srp_plan_at(root: &PreflopState, first: usize, guarded: bool, o: usize, c: usize) -> (r: Option<MatchupPlan>)
    requires
        sound(root@),
        root@.n_raises == 0,
        chips_at_most(root@, i32::MAX as int),
        first <= o < 5,
        o < c < NUM_PLAYERS,
    ensures
        match matchup_at(root@, first as int, 1, guarded, o as int, c as int) {
            Some(m) => r matches Some(x) && x@ == m,
            None => r is None,
        },
{
    proof { reveal(matchup_at); }
    let (h1, i1, line) = match open_then_fold_at(root, first, o, c) {
        Some(v) => v,
        None => return None,
    };
    let ghost hh1 = h1@;
    let acts = line.state.actions();
    proof { lemma_first_index_range(acts@); }
    let ci = match first_call_index(&acts) {
        Some(i) => i,
        None => return None,
    };
    let opener_steps = vec![RangeStep { history: h1, action_idx: i1 }];
    let caller_steps = vec![step_at(&line, ci)];
    let ghost opener_steps_v = opener_steps@;
    let ghost caller_steps_v = caller_steps@;
    match settle_at(&line, 1, o, c, opener_steps, caller_steps) {
        Some((_, p)) => {
            assert(step_views(opener_steps_v) =~= seq![(hh1, i1 as int)]);
            assert(step_views(caller_steps_v) =~= seq![(line@.history, ci as int)]);
            Some(p)
        },
        None => None,
    }
}

#[verifier::rlimit(60)]
fn three_bet_plan_at(root: &PreflopState, first: usize, guarded: bool, o: usize, c: usize) -> (r: Option<MatchupPlan>)
    requires
        sound(root@),
        root@.n_raises == 0,
        chips_at_most(root@, i32::MAX as int),
        first <= o < 5,
        o < c < NUM_PLAYERS,
    ensures
        match matchup_at(root@, first as int, 2, guarded, o as int, c as int) {
            Some(m) => r matches Some(x) && x@ == m,
            None => r is None,
        },
{
    proof { reveal(matchup_at); }
    let (h1, i1, h3, i2, line) = match three_bet_reached_at(root, first, o, c, guarded) {
        Some(v) => v,
        None => return None,
    };
    let ghost hh1 = h1@;
    let ghost hh3 = h3@;
    let acts = line.state.actions();
    proof { lemma_first_index_range(acts@); }
    let ci = match first_call_index(&acts) {
        Some(i) => i,
        None => return None,
    };
    let opener_steps = vec![RangeStep { history: h1, action_idx: i1 }, step_at(&line, ci)];
    let caller_steps = vec![RangeStep { history: h3, action_idx: i2 }];
    let ghost opener_steps_v = opener_steps@;
    let ghost caller_steps_v = caller_steps@;
    match settle_at(&line, 2, o, c, opener_steps, caller_steps) {
        Some((_, p)) => {
            assert(step_views(opener_steps_v) =~= seq![(hh1, i1 as int), (line@.history, ci as int)]);
            assert(step_views(caller_steps_v) =~= seq![(hh3, i2 as int)]);
            Some(p)
        },
        None => None,
    }
}

fn four_bet_finish(
    h1: Vec<u8>,
    i1: usize,
    h3: Vec<u8>,
    i2: usize,
    line: Line,
    o: usize,
    c: usize,
    guarded: bool,
    Ghost(l1): Ghost<LineModel>,
    Ghost(l3): Ghost<LineModel>,
) -> (r: Option<MatchupPlan>)
    requires
        line_ok(line@, 2),
        o < NUM_PLAYERS,
        c < NUM_PLAYERS,
        h1@ == l1.history,
        h3@ == l3.history,
    ensures
        match four_bet_matchup(l1, i1 as int, l3, i2 as int, line@, o as int, c as int, guarded) {
            Some(m) => r matches Some(x) && x@ == m,
            None => r is None,
        },
{
    let mut line = line;
    let ghost l5 = line@;
    let h5 = line.history_copy();
    let i3 = match four_bet_reached_at(&mut line, c, guarded) {
        Some(i) => i,
        None => return None,
    };
    let acts = line.state.actions();
    proof { lemma_first_index_range(acts@); }
    let ci = match first_call_index(&acts) {
        Some(i) => i,
        None => return None,
    };
    let opener_steps = vec![RangeStep { history: h1, action_idx: i1 }, RangeStep { history: h5, action_idx: i3 }];
    let caller_steps = vec![RangeStep { history: h3, action_idx: i2 }, step_at(&line, ci)];
    let ghost opener_steps_v = opener_steps@;
    let ghost caller_steps_v = caller_steps@;
    match settle_at(&line, 3, o, c, opener_steps, caller_steps) {
        Some((_, p)) => {
            assert(step_views(opener_steps_v) =~= seq![(l1.history, i1 as int), (l5.history, i3 as int)]);
            assert(step_views(caller_steps_v) =~= seq![(l3.history, i2 as int), (line@.history, ci as int)]);
            Some(p)
        },
        None => None,
    }
}

fn four_bet_plan_at(root: &PreflopState, first: usize, guarded: bool, o: usize, c: usize) -> (r: Option<MatchupPlan>)
    requires
        sound(root@),
        root@.n_raises == 0,
        chips_at_most(root@, i32::MAX as int),
        first <= o < 5,
        o < c < NUM_PLAYERS,
    ensures
        match matchup_at(root@, first as int, 3, guarded, o as int, c as int) {
            Some(m) => r matches Some(x) && x@ == m,
            None => r is None,
        },
{
    proof { reveal(matchup_at); }
    let ghost t = three_bet_reached(root@, first as int, o as int, c as int, guarded);
    let (h1, i1, h3, i2, line) = match three_bet_reached_at(root, first, o, c, guarded) {
        Some(v) => v,
        None => return None,
    };
    let ghost (l1, _j1, l3, _j2, _l5) = t.unwrap();
    four_bet_finish(h1, i1, h3, i2, line, o, c, guarded, Ghost(l1), Ghost(l3))
}

/// The matchup of the given kind between opener `o` and seat `c` (see [`matchup_at`]).
fn matchup_plan_at(root: &PreflopState, first: usize, kind: u8, guarded: bool, o: usize, c: usize) -> (r: Option<MatchupPlan>)
    requires
        sound(root@),
        root@.n_raises == 0,
        chips_at_most(root@, i32::MAX as int),
        first <= o < 5,
        o < c < NUM_PLAYERS,
        1 <= kind <= 3,
    ensures
        match matchup_at(root@, first as int, kind as int, guarded, o as int, c as int) {
            Some(m) => r matches Some(x) && x@ == m,
            None => r is None,
        },
{
    if kind == 1 {
        srp_plan_at(root, first, guarded, o, c)
    } else if kind == 2 {
        three_bet_plan_at(root, first, guarded, o, c)
    } else {
        four_bet_plan_at(root, first, guarded, o, c)
    }
}

/// The matchups of one kind for every pair `first <= o < c`, `o` not the BB.
fn all_pairs_matchup_plans(root: &PreflopState, first: usize, kind: u8, guarded: bool) -> (r: Vec<MatchupPlan>)
    requires
        sound(root@),
        root@.n_raises == 0,
        chips_at_most(root@, i32::MAX as int),
        first < NUM_PLAYERS,
        1 <= kind <= 3,
    ensures
        matchup_views(r@) == all_pairs_matchups(root@, first as int, kind as int, guarded, 36),
{
    let mut out: Vec<MatchupPlan> = Vec::new();
    let mut o: usize = 0;
    assert(matchup_views(out@) =~= all_pairs_matchups(root@, first as int, kind as int, guarded, 0));
    while o < NUM_PLAYERS
        invariant
            sound(root@),
            root@.n_raises == 0,
            chips_at_most(root@, i32::MAX as int),
            first < NUM_PLAYERS,
            1 <= kind <= 3,
            o <= NUM_PLAYERS,
            matchup_views(out@) == all_pairs_matchups(root@, first as int, kind as int, guarded, (o * 6) as int),
        decreases NUM_PLAYERS - o,
    {
        let mut c: usize = 0;
        while c < NUM_PLAYERS
            invariant
                sound(root@),
                root@.n_raises == 0,
                chips_at_most(root@, i32::MAX as int),
                first < NUM_PLAYERS,
                1 <= kind <= 3,
                o < NUM_PLAYERS,
                c <= NUM_PLAYERS,
                matchup_views(out@) == all_pairs_matchups(root@, first as int, kind as int, guarded, (o * 6 + c) as int),
            decreases NUM_PLAYERS - c,
        {
            let ghost n = (o * 6 + c) as int;
            assert((n + 1 - 1) / 6 == o && (n + 1 - 1) % 6 == c);
            let ghost before = matchup_views(out@);
            if first <= o && o < 5 && o < c {
                match matchup_plan_at(root, first, kind, guarded, o, c) {
                    Some(p) => {
                        out.push(p);
                        assert(matchup_views(out@) =~= before + seq![p@]);
                    },
                    None => {},
                }
            }
            assert(matchup_views(out@) =~= all_pairs_matchups(root@, first as int, kind as int, guarded, n + 1));
            c += 1;
        }
        o += 1;
    }
    out
}

/// The 6-max matchups of one kind for a list of (opener, other seat) pairs.
fn listed_matchup_plans(root: &PreflopState, kind: u8, pairs: &Vec<(usize, usize)>, ghost_pairs: Ghost<Seq<(int, int)>>) -> (r: Vec<MatchupPlan>)
    requires
        sound(root@),
        root@.n_raises == 0,
        chips_at_most(root@, i32::MAX as int),
        1 <= kind <= 3,
        pairs@.len() == ghost_pairs@.len(),
        forall|i: int| 0 <= i < pairs@.len() ==> #[trigger] pairs@[i].0 == ghost_pairs@[i].0 && pairs@[i].1 == ghost_pairs@[i].1,
        forall|i: int| 0 <= i < pairs@.len() ==> #[trigger] pairs@[i].0 < 5 && pairs@[i].0 < pairs@[i].1 < NUM_PLAYERS,
    ensures
        matchup_views(r@) == listed_matchups(root@, kind as int, ghost_pairs@, pairs@.len() as int),
{
    let mut out: Vec<MatchupPlan> = Vec::new();
    let mut i: usize = 0;
    assert(matchup_views(out@) =~= listed_matchups(root@, kind as int, ghost_pairs@, 0));
    while i < pairs.len()
        invariant
            sound(root@),
            root@.n_raises == 0,
            chips_at_most(root@, i32::MAX as int),
            1 <= kind <= 3,
            i <= pairs@.len(),
            pairs@.len() == ghost_pairs@.len(),
            forall|j: int| 0 <= j < pairs@.len() ==> #[trigger] pairs@[j].0 == ghost_pairs@[j].0 && pairs@[j].1 == ghost_pairs@[j].1,
            forall|j: int| 0 <= j < pairs@.len() ==> #[trigger] pairs@[j].0 < 5 && pairs@[j].0 < pairs@[j].1 < NUM_PLAYERS,
            matchup_views(out@) == listed_matchups(root@, kind as int, ghost_pairs@, i as int),
        decreases pairs.len() - i,
    {
        let (o, c) = pairs[i];
        let ghost before = matchup_views(out@);
        match matchup_plan_at(root, 0, kind, false, o, c) {
            Some(p) => {
                out.push(p);
                assert(matchup_views(out@) =~= before + seq![p@]);
            },
            None => {},
        }
        assert(matchup_views(out@) =~= listed_matchups(root@, kind as int, ghost_pairs@, i + 1));
        i += 1;
    }
    out
}

fn append_matchups(out: &mut Vec<MatchupPlan>, more: Vec<MatchupPlan>)
    ensures
        matchup_views(final(out)@) == matchup_views(old(out)@) + matchup_views(more@),
{
    let ghost start = out@;
    let mut more = more;
    let ghost m = more@;
    out.append(&mut more);
    assert(matchup_views(out@) =~= matchup_views(start) + matchup_views(m));
}

fn six_max_matchup_root(config: &PreflopBetConfig) -> (r: PreflopState)
    ensures
        r@ == six_max_start(config@),
        sound(r@),
        chips_at_most(r@, i32::MAX as int),
{
    proof {
        law_generic_start_matches_presets(config@);
        law_generic_start_is_wf(6, 200, config@);
        lemma_start_chips(6, 200, config@);
    }
    PreflopState::new_6max(config.clone())
}

fn pair_list_3bet() -> (r: Vec<(usize, usize)>)
    ensures
        r@.len() == three_bet_pairs().len(),
        forall|i: int| 0 <= i < r@.len() ==> #[trigger] r@[i].0 == three_bet_pairs()[i].0 && r@[i].1 == three_bet_pairs()[i].1,
        forall|i: int| 0 <= i < r@.len() ==> #[trigger] r@[i].0 < 5 && r@[i].0 < r@[i].1 < NUM_PLAYERS,
{
    let r: Vec<(usize, usize)> = vec![(0, 3), (0, 5), (1, 2), (1, 3), (1, 5), (2, 3), (2, 5), (3, 4), (3, 5), (4, 5)];
    r
}

fn pair_list_4bet() -> (r: Vec<(usize, usize)>)
    ensures
        r@.len() == four_bet_pairs().len(),
        forall|i: int| 0 <= i < r@.len() ==> #[trigger] r@[i].0 == four_bet_pairs()[i].0 && r@[i].1 == four_bet_pairs()[i].1,
        forall|i: int| 0 <= i < r@.len() ==> #[trigger] r@[i].0 < 5 && r@[i].0 < r@[i].1 < NUM_PLAYERS,
{
    let r: Vec<(usize, usize)> = vec![(2, 3), (3, 5), (1, 3), (0, 5), (4, 5)];
    r
}

/// Every 6-max single-raised pot has an open and a call.
pub open spec fn six_max_srp_complete(root: StateModel) -> bool {
    forall|o: int, c: int| 0 <= o < 5 && o < c < NUM_PLAYERS ==> (#[trigger] matchup_at(root, 0, 1, false, o, c)) is Some
}

/// Every listed 6-max matchup of the kind reaches its final call.
pub open spec fn six_max_listed_complete(root: StateModel, kind: int, pairs: Seq<(int, int)>) -> bool {
    forall|k: int| 0 <= k < pairs.len() ==> (#[trigger] matchup_at(root, 0, kind, false, pairs[k].0, pairs[k].1)) is Some
}

/// Every 6-max matchup: single-raised pots, listed 3-bet and 4-bet pots.
pub open spec fn six_max_matchups(root: StateModel) -> Seq<MatchupModel> {
    all_pairs_matchups(root, 0, 1, false, 36) + listed_matchups(root, 2, three_bet_pairs(), 10)
        + listed_matchups(root, 3, four_bet_pairs(), 5)
}

/// Every matchup of a hand whose seats from `first` on play: single-raised
/// pots, and, when the configuration has 3-bet (4-bet) sizes, 3-bet (4-bet)
/// pots, for every pair of seats.
pub open spec fn generic_matchups(root: StateModel, first: int) -> Seq<MatchupModel> {
    all_pairs_matchups(root, first, 1, true, 36)
        + (if root.config.raise_sizes.len() >= 2 { all_pairs_matchups(root, first, 2, true, 36) } else { Seq::empty() })
        + (if root.config.raise_sizes.len() >= 3 { all_pairs_matchups(root, first, 3, true, 36) } else { Seq::empty() })
}

impl PreflopBlueprint {
    /// The 15 6-max single-raised pots: for every opener UTG to SB and every
    /// later seat, "{opener} vs {caller}", where the seats before the opener
    /// fold, the opener makes its first listed raise, the seats between fold
    /// and the caller calls. Every pair must reach its call.
    pub fn matchup_plans(&self) -> (r: Vec<MatchupPlan>)
        requires
            six_max_srp_complete(six_max_start(self@.config)),
        ensures
            matchup_views(r@) == all_pairs_matchups(six_max_start(self@.config), 0, 1, false, 36),
            r@.len() == 15,
    {
        let root = six_max_matchup_root(&self.config);
        let r = all_pairs_matchup_plans(&root, 0, 1, false);
        proof {
            lemma_all_pairs_complete(root@, 36);
            reveal_with_fuel(pairs_below, 37);
            assert(pairs_below(0, 36) == 15);
        }
        r
    }

    /// The listed 6-max 3-bet pots: "{opener} open vs {3-bettor} 3bet", where
    /// the table folds round to the opener after the 3-bet and the opener
    /// calls. Every listed pair must reach its call.
    pub fn three_bet_matchup_plans(&self) -> (r: Vec<MatchupPlan>)
        requires
            six_max_listed_complete(six_max_start(self@.config), 2, three_bet_pairs()),
        ensures
            matchup_views(r@) == listed_matchups(six_max_start(self@.config), 2, three_bet_pairs(), 10),
            r@.len() == 10,
    {
        let root = six_max_matchup_root(&self.config);
        let pairs = pair_list_3bet();
        let r = listed_matchup_plans(&root, 2, &pairs, Ghost(three_bet_pairs()));
        proof { lemma_listed_complete(root@, 2, three_bet_pairs(), 10); }
        r
    }

    /// The listed 6-max 4-bet pots: "{opener} 4bet vs {3-bettor} call", where
    /// the opener 4-bets, the table folds round to the 3-bettor and it calls.
    /// Every listed pair must reach its call.
    pub fn four_bet_matchup_plans(&self) -> (r: Vec<MatchupPlan>)
        requires
            six_max_listed_complete(six_max_start(self@.config), 3, four_bet_pairs()),
        ensures
            matchup_views(r@) == listed_matchups(six_max_start(self@.config), 3, four_bet_pairs(), 5),
            r@.len() == 5,
    {
        let root = six_max_matchup_root(&self.config);
        let pairs = pair_list_4bet();
        let r = listed_matchup_plans(&root, 3, &pairs, Ghost(four_bet_pairs()));
        proof { lemma_listed_complete(root@, 3, four_bet_pairs(), 5); }
        r
    }

    /// Every 6-max matchup: single-raised, 3-bet and 4-bet pots, in that order.
    pub fn all_matchup_plans(&self) -> (r: Vec<MatchupPlan>)
        requires
            six_max_srp_complete(six_max_start(self@.config)),
            six_max_listed_complete(six_max_start(self@.config), 2, three_bet_pairs()),
            six_max_listed_complete(six_max_start(self@.config), 3, four_bet_pairs()),
        ensures
            matchup_views(r@) == six_max_matchups(six_max_start(self@.config)),
    {
        let mut out = self.matchup_plans();
        append_matchups(&mut out, self.three_bet_matchup_plans());
        append_matchups(&mut out, self.four_bet_matchup_plans());
        out
    }

    /// Every matchup of a hand of `num_players` players (2 to 6) with
    /// `stack_chips` chips each; pairs whose line does not reach its final
    /// call are skipped.
    pub fn all_matchup_plans_generic(&self, num_players: usize, stack_chips: i32) -> (r: Vec<MatchupPlan>)
        requires
            2 <= num_players <= NUM_PLAYERS,
            i32::MIN + 2 <= stack_chips,
            num_players * stack_chips <= i32::MAX,
        ensures
            matchup_views(r@) == generic_matchups(
                generic_start(num_players as int, stack_chips as int, self@.config),
                NUM_PLAYERS - num_players,
            ),
    {
        let first = NUM_PLAYERS - num_players;
        let root = PreflopState::new_generic(num_players, stack_chips, self.config.clone());
        proof {
            law_generic_start_is_sound(num_players as int, stack_chips as int, self@.config);
            lemma_start_chips(num_players as int, stack_chips as int, self@.config);
        }
        let mut out = all_pairs_matchup_plans(&root, first, 1, true);
        if self.config.raise_sizes.len() >= 2 {
            append_matchups(&mut out, all_pairs_matchup_plans(&root, first, 2, true));
        }
        if self.config.raise_sizes.len() >= 3 {
            append_matchups(&mut out, all_pairs_matchup_plans(&root, first, 3, true));
        }
        out
    }
}

/// Number of pairs `(o, c)` with `first <= o < 5`, `o < c`, among the pair
/// numbers `o * 6 + c` below `n`.
pub open spec fn pairs_below(first: int, n: int) -> nat
    decreases n,
{
    if n <= 0 {
        0
    } else {
        pairs_below(first, n - 1) + if first <= (n - 1) / 6 < 5 && (n - 1) / 6 < (n - 1) % 6 { 1nat } else { 0nat }
    }
}

proof fn lemma_all_pairs_complete(root: StateModel, n: int)
    requires
        six_max_srp_complete(root),
        0 <= n <= 36,
    ensures
        all_pairs_matchups(root, 0, 1, false, n).len() == pairs_below(0, n),
    decreases n,
{
    if n > 0 {
        lemma_all_pairs_complete(root, n - 1);
        let o = (n - 1) / 6;
        let c = (n - 1) % 6;
        if 0 <= o < 5 && o < c {
            assert(matchup_at(root, 0, 1, false, o, c) is Some);
        }
    }
}

proof fn lemma_listed_complete(root: StateModel, kind: int, pairs: Seq<(int, int)>, n: int)
    requires
        six_max_listed_complete(root, kind, pairs),
        0 <= n <= pairs.len(),
    ensures
        listed_matchups(root, kind, pairs, n).len() == n,
    decreases n,
{
    if n > 0 {
        lemma_listed_complete(root, kind, pairs, n - 1);
        assert(matchup_at(root, 0, kind, false, pairs[n - 1].0, pairs[n - 1].1) is Some);
    }
}

proof fn lemma_all_pairs_count(root: StateModel, n: int)
    requires
        0 <= n <= 36,
    ensures
        all_pairs_matchups(root, 0, 1, false, n).len() <= pairs_below(0, n),
        all_pairs_matchups(root, 0, 1, false, n).len() == pairs_below(0, n) ==> forall|o: int, c: int|
            0 <= o < 5 && o < c < NUM_PLAYERS && o * 6 + c < n ==> (#[trigger] matchup_at(root, 0, 1, false, o, c)) is Some,
    decreases n,
{
    if n > 0 {
        lemma_all_pairs_count(root, n - 1);
        let o = (n - 1) / 6;
        let c = (n - 1) % 6;
        if all_pairs_matchups(root, 0, 1, false, n).len() == pairs_below(0, n) {
            assert forall|o2: int, c2: int| 0 <= o2 < 5 && o2 < c2 < NUM_PLAYERS && o2 * 6 + c2 < n implies
                (#[trigger] matchup_at(root, 0, 1, false, o2, c2)) is Some by {
                if o2 * 6 + c2 == n - 1 {
                    assert(o2 == o && c2 == c);
                }
            }
        }
    }
}

proof fn lemma_listed_count(root: StateModel, kind: int, pairs: Seq<(int, int)>, n: int)
    requires
        0 <= n <= pairs.len(),
    ensures
        listed_matchups(root, kind, pairs, n).len() <= n,
        listed_matchups(root, kind, pairs, n).len() == n ==> forall|k: int|
            0 <= k < n ==> (#[trigger] matchup_at(root, 0, kind, false, pairs[k].0, pairs[k].1)) is Some,
    decreases n,
{
    if n > 0 {
        lemma_listed_count(root, kind, pairs, n - 1);
    }
}

impl PreflopBlueprint {
    /// Every 6-max matchup as in [`Self::all_matchup_plans`], or `None` when
    /// some matchup does not reach its final call.
    pub fn try_all_matchup_plans(&self) -> (r: Option<Vec<MatchupPlan>>)
        ensures
            r is Some <==> (six_max_srp_complete(six_max_start(self@.config))
                && six_max_listed_complete(six_max_start(self@.config), 2, three_bet_pairs())
                && six_max_listed_complete(six_max_start(self@.config), 3, four_bet_pairs())),
            r matches Some(v) ==> matchup_views(v@) == six_max_matchups(six_max_start(self@.config)),
    {
        let root = six_max_matchup_root(&self.config);
        let mut srp = all_pairs_matchup_plans(&root, 0, 1, false);
        let pairs3 = pair_list_3bet();
        let three = listed_matchup_plans(&root, 2, &pairs3, Ghost(three_bet_pairs()));
        let pairs4 = pair_list_4bet();
        let four = listed_matchup_plans(&root, 3, &pairs4, Ghost(four_bet_pairs()));
        proof {
            lemma_all_pairs_count(root@, 36);
            lemma_listed_count(root@, 2, three_bet_pairs(), 10);
            lemma_listed_count(root@, 3, four_bet_pairs(), 5);
            reveal_with_fuel(pairs_below, 37);
            assert(pairs_below(0, 36) == 15);
            if six_max_srp_complete(root@) {
                lemma_all_pairs_complete(root@, 36);
            }
            if six_max_listed_complete(root@, 2, three_bet_pairs()) {
                lemma_listed_complete(root@, 2, three_bet_pairs(), 10);
            }
            if six_max_listed_complete(root@, 3, four_bet_pairs()) {
                lemma_listed_complete(root@, 3, four_bet_pairs(), 5);
            }
            assert(matchup_views(srp@).len() == srp@.len());
            assert(matchup_views(three@).len() == three@.len());
            assert(matchup_views(four@).len() == four@.len());
            if srp@.len() == 15 {
                assert forall|o: int, c: int| 0 <= o < 5 && o < c < NUM_PLAYERS implies
                    (#[trigger] matchup_at(root@, 0, 1, false, o, c)) is Some by {
                    assert(o * 6 + c < 36);
                }
            }
        }
        if srp.len() != 15 || three.len() != 10 || four.len() != 5 {
            return None;
        }
        append_matchups(&mut srp, three);
        append_matchups(&mut srp, four);
        Some(srp)
    }
}

} // verus!
