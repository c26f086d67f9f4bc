//! Betting lines walked from the start of a hand: runs of folds, the first
//! listed raise or call of a seat, and folding round to a given seat. Each
//! step records the index of the action taken, as blueprint keys do.

use vstd::prelude::*;
use crate::action::PreflopAction;
use crate::state::{PreflopState, StateModel, NUM_PLAYERS};
use crate::spots::after_folds;
use crate::tree::{seat_after, lemma_next_actor_from_char};
use crate::laws::{sound, law_legal_action_keeps_sound, lemma_next_actor_from_range, law_apply_conserves_seat_chips};

verus! {

/// A state together with the action indices that led to it.
pub struct Line {
    pub history: Vec<u8>,
    pub state: PreflopState,
}

pub struct LineModel {
    pub history: Seq<u8>,
    pub state: StateModel,
}

impl View for Line {
    type V = LineModel;

    open spec fn view(&self) -> LineModel {
        LineModel { history: self.history@, state: self.state@ }
    }
}

/// Every seat has the same stack plus bet in `a` and `b`.
pub open spec fn same_seat_chips(a: StateModel, b: StateModel) -> bool {
    forall|i: int| 0 <= i < NUM_PLAYERS ==> #[trigger] a.stacks[i] + a.bets[i] == b.stacks[i] + b.bets[i]
}

/// `n` fold indices.
pub open spec fn zeros(n: nat) -> Seq<u8> {
    Seq::new(n, |i: int| 0u8)
}

/// `l` after `n` folds in a row.
pub open spec fn fold_line(l: LineModel, n: nat) -> LineModel {
    LineModel { history: l.history + zeros(n), state: after_folds(l.state, n) }
}

/// The first index from `k` on of a raise in `s`.
pub open spec fn first_raise_from(s: Seq<PreflopAction>, k: int) -> Option<int>
    decreases s.len() - k,
{
    if k < 0 || k >= s.len() {
        None
    } else if s[k] is Raise {
        Some(k)
    } else {
        first_raise_from(s, k + 1)
    }
}

/// The first index from `k` on of a call in `s`.
pub open spec fn first_call_from(s: Seq<PreflopAction>, k: int) -> Option<int>
    decreases s.len() - k,
{
    if k < 0 || k >= s.len() {
        None
    } else if s[k] is Call {
        Some(k)
    } else {
        first_call_from(s, k + 1)
    }
}

/// `l` after the seat to act takes its `i`-th legal action.
pub open spec fn take_action(l: LineModel, i: int) -> LineModel {
    LineModel { history: l.history.push(i as u8), state: l.state.apply(l.state.actions()[i]) }
}

/// Turns from seat `from` round to seat `seat`.
pub open spec fn turns_to(from: int, seat: int) -> int {
    (seat - from + NUM_PLAYERS) % (NUM_PLAYERS as int)
}

/// Folding the seat to act, when it is not `seat` and `seat` can act, keeps
/// `seat` able to act and passes the turn closer to it.
pub proof fn lemma_fold_nears(m: StateModel, seat: int)
    requires
        m.shaped(),
        0 <= seat < NUM_PLAYERS,
        m.can_act(seat),
        m.to_act != seat,
    ensures
        m.apply(PreflopAction::Fold).shaped(),
        m.apply(PreflopAction::Fold).can_act(seat),
        0 <= turns_to(m.apply(PreflopAction::Fold).to_act as int, seat) < turns_to(m.to_act as int, seat),
{
    let p = m.to_act as int;
    let s = m.step(PreflopAction::Fold);
    lemma_next_actor_from_range(s, p, 1);
    let t = turns_to(p, seat);
    assert(seat_after(p, t) == seat);
    let j = lemma_next_actor_from_char(s, p, 1);
    assert(s.can_act(seat));
    assert(j <= t);
    assert(turns_to(seat_after(p, j), seat) == t - j);
}

/// `l` folded round until `seat` is to act, for a seat that can act; with
/// `guarded`, `None` when at most one seat is left before that.
pub open spec fn fold_to(l: LineModel, seat: int, guarded: bool) -> Option<LineModel>
    decreases turns_to(l.state.to_act as int, seat),
    when l.state.shaped() && 0 <= seat < NUM_PLAYERS && l.state.can_act(seat)
{
    if l.state.to_act == seat {
        Some(l)
    } else if guarded && l.state.active_count() <= 1 {
        None
    } else {
        proof {
            lemma_fold_nears(l.state, seat);
            assert(after_folds(l.state, 1) == after_folds(l.state, 0).apply(PreflopAction::Fold));
        }
        fold_to(fold_line(l, 1), seat, guarded)
    }
}

/// `l` folded round until `seat` is to act; `None` when `seat` cannot act
/// (it would never be reached) or, with `guarded`, when at most one seat is
/// left on the way.
pub open spec fn reach_seat(l: LineModel, seat: int, guarded: bool) -> Option<LineModel> {
    if l.state.can_act(seat) { fold_to(l, seat, guarded) } else { None }
}

/// Folding keeps a state well-formed.
pub proof fn lemma_fold_keeps_wf(m: StateModel)
    requires
        sound(m),
    ensures
        sound(m.apply(PreflopAction::Fold)),
        m.apply(PreflopAction::Fold).n_raises == m.n_raises,
        m.apply(PreflopAction::Fold).config == m.config,
{
    lemma_next_actor_from_range(m.step(PreflopAction::Fold), m.to_act as int, 1);
}

proof fn lemma_after_folds_keeps_wf(m: StateModel, n: nat)
    requires
        sound(m),
    ensures
        sound(after_folds(m, n)),
        after_folds(m, n).n_raises == m.n_raises,
        after_folds(m, n).config == m.config,
    decreases n,
{
    if n > 0 {
        lemma_after_folds_keeps_wf(m, (n - 1) as nat);
        lemma_fold_keeps_wf(after_folds(m, (n - 1) as nat));
    }
}

impl Line {
    /// A line at `state` with no actions recorded.
    pub fn start(state: PreflopState) -> (r: Line)
        ensures
            r@ == (LineModel { history: Seq::empty(), state: state@ }),
    {
        Line { history: Vec::new(), state }
    }

    /// A copy of the action indices.
    pub fn history_copy(&self) -> (r: Vec<u8>)
        ensures
            r@ == self.history@,
    {
        let mut r: Vec<u8> = Vec::new();
        let mut i: usize = 0;
        while i < self.history.len()
            invariant
                i <= self.history@.len(),
                r@ == self.history@.take(i as int),
            decreases self.history.len() - i,
        {
            r.push(self.history[i]);
            i += 1;
            assert(r@ =~= self.history@.take(i as int));
        }
        assert(self.history@.take(self.history@.len() as int) =~= self.history@);
        r
    }

    /// The seat to act folds, `n` times in a row.
    pub fn fold_times(&mut self, n: usize)
        requires
            sound(old(self)@.state),
        ensures
            final(self)@ == fold_line(old(self)@, n as nat),
            sound(final(self)@.state),
            final(self)@.state.n_raises == old(self)@.state.n_raises,
            final(self)@.state.config == old(self)@.state.config,
            same_seat_chips(final(self)@.state, old(self)@.state),
    {
        let ghost l0 = self@;
        let mut i: usize = 0;
        assert(l0.history + zeros(0) =~= l0.history);
        while i < n
            invariant
                i <= n,
                self@ == fold_line(l0, i as nat),
                sound(self@.state),
                self@.state.n_raises == l0.state.n_raises,
                self@.state.config == l0.state.config,
                same_seat_chips(self@.state, l0.state),
            decreases n - i,
        {
            proof {
                lemma_fold_keeps_wf(self@.state);
                law_apply_conserves_seat_chips(self@.state, PreflopAction::Fold);
            }
            self.history.push(0);
            self.state = self.state.apply(PreflopAction::Fold);
            i += 1;
            assert(self@.history =~= l0.history + zeros(i as nat));
        }
    }

    /// The seat to act takes its `i`-th legal action.
    pub fn take(&mut self, actions: &Vec<PreflopAction>, i: usize)
        requires
            sound(old(self)@.state),
            old(self)@.state.n_raises < u8::MAX,
            actions@ == old(self)@.state.actions(),
            i < actions@.len(),
        ensures
            final(self)@ == take_action(old(self)@, i as int),
            sound(final(self)@.state),
            final(self)@.state.n_raises <= old(self)@.state.n_raises + 1,
            final(self)@.state.config == old(self)@.state.config,
            same_seat_chips(final(self)@.state, old(self)@.state),
    {
        let a = actions[i];
        proof {
            assert(self@.state.actions().contains(a));
            law_legal_action_keeps_sound(self@.state, a);
            law_apply_conserves_seat_chips(self@.state, a);
        }
        self.history.push(i as u8);
        self.state = self.state.apply(a);
    }

    /// Folds round until `seat` is to act; `false` when `seat` cannot act or,
    /// with `guarded`, when at most one seat is left on the way.
    pub fn fold_round_to(&mut self, seat: usize, guarded: bool) -> (r: bool)
        requires
            sound(old(self)@.state),
            seat < NUM_PLAYERS,
        ensures
            match reach_seat(old(self)@, seat as int, guarded) {
                Some(l) => r && final(self)@ == l,
                None => !r,
            },
            sound(final(self)@.state),
            final(self)@.state.n_raises == old(self)@.state.n_raises,
            final(self)@.state.config == old(self)@.state.config,
            same_seat_chips(final(self)@.state, old(self)@.state),
    {
        let ghost l0 = self@;
        if self.state.folded[seat] || self.state.all_in[seat] {
            return false;
        }
        while self.state.to_act as usize != seat
            invariant
                l0 == old(self)@,
                sound(self@.state),
                seat < NUM_PLAYERS,
                self@.state.can_act(seat as int),
                reach_seat(l0, seat as int, guarded) == fold_to(self@, seat as int, guarded),
                self@.state.n_raises == l0.state.n_raises,
                self@.state.config == l0.state.config,
                same_seat_chips(self@.state, l0.state),
            decreases turns_to(self@.state.to_act as int, seat as int),
        {
            if guarded && self.state.active_count() <= 1 {
                return false;
            }
            proof {
                lemma_fold_nears(self@.state, seat as int);
                lemma_fold_keeps_wf(self@.state);
                law_apply_conserves_seat_chips(self@.state, PreflopAction::Fold);
                assert(after_folds(self@.state, 1) == after_folds(self@.state, 0).apply(PreflopAction::Fold));
            }
            let ghost before = self@;
            self.history.push(0);
            self.state = self.state.apply(PreflopAction::Fold);
            assert(self@.history =~= fold_line(before, 1).history);
        }
        true
    }
}

/// The index of the first raise among `actions`.
pub fn first_raise_index(actions: &Vec<PreflopAction>) -> (r: Option<usize>)
    ensures
        match first_raise_from(actions@, 0) {
            Some(i) => r == Some(i as usize) && 0 <= i < actions@.len(),
            None => r is None,
        },
{
    proof { lemma_first_from_range(actions@, 0); }
    let mut i: usize = 0;
    while i < actions.len()
        invariant
            i <= actions@.len(),
            first_raise_from(actions@, 0) == first_raise_from(actions@, i as int),
            first_raise_from(actions@, 0) matches Some(j) ==> 0 <= j < actions@.len(),
        decreases actions.len() - i,
    {
        if actions[i].is_raise() {
            return Some(i);
        }
        i += 1;
    }
    None
}

/// The index of the first call among `actions`.
pub fn first_call_index(actions: &Vec<PreflopAction>) -> (r: Option<usize>)
    ensures
        match first_call_from(actions@, 0) {
            Some(i) => r == Some(i as usize) && 0 <= i < actions@.len(),
            None => r is None,
        },
{
    proof { lemma_first_from_range(actions@, 0); }
    let mut i: usize = 0;
    while i < actions.len()
        invariant
            i <= actions@.len(),
            first_call_from(actions@, 0) == first_call_from(actions@, i as int),
            first_call_from(actions@, 0) matches Some(j) ==> 0 <= j < actions@.len(),
        decreases actions.len() - i,
    {
        if actions[i].is_call() {
            return Some(i);
        }
        i += 1;
    }
    None
}

proof fn lemma_first_from_range(s: Seq<PreflopAction>, k: int)
    requires
        0 <= k,
    ensures
        first_raise_from(s, k) matches Some(i) ==> k <= i < s.len() && s[i] is Raise,
        first_call_from(s, k) matches Some(i) ==> k <= i < s.len() && s[i] is Call,
    decreases s.len() - k,
{
    if k < s.len() {
        lemma_first_from_range(s, k + 1);
    }
}

/// Where the first raise or call of a list of actions stands.
pub proof fn lemma_first_index_range(s: Seq<PreflopAction>)
    ensures
        first_raise_from(s, 0) matches Some(i) ==> 0 <= i < s.len() && s[i] is Raise,
        first_call_from(s, 0) matches Some(i) ==> 0 <= i < s.len() && s[i] is Call,
{
    lemma_first_from_range(s, 0);
}

} // verus!
