//! The preflop betting state machine: seats, stacks, bets, whose turn it is,
//! which actions are legal, and what each action does.

use vstd::prelude::*;
use crate::action::{PreflopAction, PreflopNodeType};
use crate::config::{ConfigModel, PreflopBetConfig};

verus! {

/// Number of seats: UTG(0), HJ(1), CO(2), BTN(3), SB(4), BB(5).
pub const NUM_PLAYERS: usize = 6;

/// Seat of the small blind.
pub const SB_SEAT: u8 = 4;

/// Seat of the big blind.
pub const BB_SEAT: u8 = 5;

/// The mathematical content of a [`PreflopState`]; every sequence has one entry per seat.
#[verifier::ext_equal]
pub struct StateModel {
    pub stacks: Seq<i32>,
    pub bets: Seq<i32>,
    pub folded: Seq<bool>,
    pub has_acted: Seq<bool>,
    pub all_in: Seq<bool>,
    pub to_act: u8,
    pub n_raises: u8,
    pub holes: Seq<u64>,
    pub config: ConfigModel,
    pub last_raise_size: i32,
}

/// A preflop betting state. Chip unit: 1 chip = 0.5bb.
#[derive(Debug)]
pub struct PreflopState {
    /// Chips behind for each seat.
    pub stacks: [i32; NUM_PLAYERS],
    /// Chips put in this hand by each seat (its total bet).
    pub bets: [i32; NUM_PLAYERS],
    pub folded: [bool; NUM_PLAYERS],
    /// Whether the seat has acted since the last full raise.
    pub has_acted: [bool; NUM_PLAYERS],
    pub all_in: [bool; NUM_PLAYERS],
    /// Seat whose turn it is.
    pub to_act: u8,
    /// Number of raises so far (the blinds are not a raise; an open is depth 0).
    pub n_raises: u8,
    /// Card mask of each seat's hole cards (bit `c` set for card `c`).
    pub holes: [u64; NUM_PLAYERS],
    pub config: PreflopBetConfig,
    /// Size of the last full raise, the reference for the minimum raise.
    pub last_raise_size: i32,
}

impl View for PreflopState {
    type V = StateModel;

    open spec fn view(&self) -> StateModel {
        StateModel {
            stacks: self.stacks@,
            bets: self.bets@,
            folded: self.folded@,
            has_acted: self.has_acted@,
            all_in: self.all_in@,
            to_act: self.to_act,
            n_raises: self.n_raises,
            holes: self.holes@,
            config: self.config@,
            last_raise_size: self.last_raise_size,
        }
    }
}

/// Largest of the first `n` entries of `b` (`n >= 1`).
pub open spec fn prefix_max(b: Seq<i32>, n: int) -> int
    decreases n,
{
    if n <= 1 {
        b[0] as int
    } else {
        let rest = prefix_max(b, n - 1);
        if b[n - 1] > rest { b[n - 1] as int } else { rest }
    }
}

/// Sum of the first `n` entries of `b`.
pub open spec fn prefix_sum(b: Seq<i32>, n: int) -> int
    decreases n,
{
    if n <= 0 { 0 } else { prefix_sum(b, n - 1) + b[n - 1] }
}

impl StateModel {
    /// Seat `i` has not folded.
    pub open spec fn live(self, i: int) -> bool {
        !self.folded[i]
    }

    /// Seat `i` can still act: neither folded nor all-in.
    pub open spec fn can_act(self, i: int) -> bool {
        !self.folded[i] && !self.all_in[i]
    }

    /// Number of seats among the first `n` that have not folded.
    pub open spec fn live_count_below(self, n: int) -> nat
        decreases n,
    {
        if n <= 0 { 0 } else { self.live_count_below(n - 1) + if self.live(n - 1) { 1nat } else { 0nat } }
    }

    /// Number of seats among the first `n` that can still act.
    pub open spec fn actor_count_below(self, n: int) -> nat
        decreases n,
    {
        if n <= 0 { 0 } else { self.actor_count_below(n - 1) + if self.can_act(n - 1) { 1nat } else { 0nat } }
    }

    pub open spec fn active_count(self) -> nat {
        self.live_count_below(NUM_PLAYERS as int)
    }

    pub open spec fn active_non_allin_count(self) -> nat {
        self.actor_count_below(NUM_PLAYERS as int)
    }

    /// The largest bet at the table.
    pub open spec fn max_bet(self) -> int {
        prefix_max(self.bets, NUM_PLAYERS as int)
    }

    /// Total chips in the pot.
    pub open spec fn pot(self) -> int {
        prefix_sum(self.bets, NUM_PLAYERS as int)
    }

    /// Betting is over: at most one seat is left, or every seat that can still
    /// act has acted and matched the largest bet.
    pub open spec fn is_closed(self) -> bool {
        self.active_count() <= 1 || forall|i: int|
            0 <= i < NUM_PLAYERS && #[trigger] self.can_act(i) ==> self.has_acted[i] && self.bets[i]
                == self.max_bet()
    }

    /// The first seat at or after `from` that has not folded (6 when none).
    pub open spec fn first_live_from(self, from: int) -> int
        decreases NUM_PLAYERS - from,
    {
        if from >= NUM_PLAYERS {
            NUM_PLAYERS as int
        } else if self.live(from) {
            from
        } else {
            self.first_live_from(from + 1)
        }
    }

    pub open spec fn node_type(self) -> PreflopNodeType {
        if self.active_count() == 1 {
            PreflopNodeType::TerminalFold(self.first_live_from(0) as u8)
        } else if self.is_closed() {
            PreflopNodeType::TerminalShowdown
        } else {
            PreflopNodeType::Decision(self.to_act)
        }
    }

    /// Going round the table from the seat after `after`, the first seat that can
    /// act, trying `after + k`, ..., `after + 6` (mod 6); `after` itself when none can.
    pub open spec fn next_actor_from(self, after: int, k: int) -> int
        decreases 7 - k,
    {
        if k > NUM_PLAYERS {
            after
        } else if self.can_act((after + k) % (NUM_PLAYERS as int)) {
            (after + k) % (NUM_PLAYERS as int)
        } else {
            self.next_actor_from(after, k + 1)
        }
    }

    /// The seat to act after `after`.
    pub open spec fn next_actor(self, after: int) -> int {
        self.next_actor_from(after, 1)
    }

    // ---------------------------------------------------------------------
    // Legal actions
    // ---------------------------------------------------------------------

    pub open spec fn my_bet(self) -> int {
        self.bets[self.to_act as int] as int
    }

    pub open spec fn my_stack(self) -> int {
        self.stacks[self.to_act as int] as int
    }

    /// Chips the seat to act must add to match the largest bet.
    pub open spec fn to_call(self) -> int {
        self.max_bet() - self.my_bet()
    }

    /// The configured total-bet sizes for the current raise depth.
    pub open spec fn depth_sizes(self) -> Seq<i32> {
        if (self.n_raises as int) < self.config.raise_sizes.len() {
            self.config.raise_sizes[self.n_raises as int]
        } else {
            Seq::empty()
        }
    }

    /// A configured size as offered to the seat to act: the SB's open uses
    /// `sb_open_size` when set.
    pub open spec fn offered_size(self, total: i32) -> i32 {
        if self.n_raises == 0 && self.to_act == SB_SEAT {
            match self.config.sb_open_size {
                Some(s) => s,
                None => total,
            }
        } else {
            total
        }
    }

    /// A raise to `total` facing a bet: at least a minimum raise, not the whole
    /// stack, and more than a call.
    pub open spec fn facing_raise_ok(self, total: i32) -> bool {
        &&& total - self.max_bet() >= self.last_raise_size
        &&& total - self.my_bet() < self.my_stack()
        &&& total - self.my_bet() > self.to_call()
    }

    /// A bet to `total` when nothing is to be called: adds chips, not the whole stack.
    pub open spec fn unfaced_raise_ok(self, total: i32) -> bool {
        &&& total - self.my_bet() < self.my_stack()
        &&& total - self.my_bet() > 0
    }

    /// The raise offered for a configured size when facing a bet, if legal.
    pub open spec fn facing_pick(self) -> spec_fn(i32) -> Option<PreflopAction> {
        |t: i32|
            if self.facing_raise_ok(self.offered_size(t)) {
                Some(PreflopAction::Raise(self.offered_size(t)))
            } else {
                None
            }
    }

    /// The raise offered for a configured size when nothing is to be called, if legal.
    pub open spec fn unfaced_pick(self) -> spec_fn(i32) -> Option<PreflopAction> {
        |t: i32|
            if self.unfaced_raise_ok(t) {
                Some(PreflopAction::Raise(t))
            } else {
                None
            }
    }

    pub open spec fn facing_raises(self) -> Seq<PreflopAction> {
        self.depth_sizes().filter_map(self.facing_pick())
    }

    pub open spec fn unfaced_raises(self) -> Seq<PreflopAction> {
        self.depth_sizes().filter_map(self.unfaced_pick())
    }

    /// A call is offered facing a raise; facing only the blinds, only to the
    /// SB and only when limping is allowed.
    pub open spec fn call_offered(self) -> bool {
        self.n_raises > 0 || (self.to_act == SB_SEAT && self.config.sb_limp)
    }

    /// All-in as a voluntary action needs `min_allin_depth` raises first.
    pub open spec fn allin_depth_met(self) -> bool {
        self.n_raises >= self.config.min_allin_depth
    }

    /// The legal actions of the seat to act, in order.
    pub open spec fn actions(self) -> Seq<PreflopAction> {
        if self.to_call() > 0 {
            if self.to_call() >= self.my_stack() {
                seq![PreflopAction::Fold, PreflopAction::AllIn]
            } else {
                seq![PreflopAction::Fold]
                    + (if self.call_offered() { seq![PreflopAction::Call] } else { Seq::empty() })
                    + self.facing_raises()
                    + (if self.allin_depth_met() { seq![PreflopAction::AllIn] } else { Seq::empty() })
            }
        } else {
            seq![PreflopAction::Check]
                + self.unfaced_raises()
                + (if self.my_stack() > 0 && self.allin_depth_met() {
                    seq![PreflopAction::AllIn]
                } else {
                    Seq::empty()
                })
        }
    }

    // ---------------------------------------------------------------------
    // Transitions
    // ---------------------------------------------------------------------

    /// `has_acted` after a full raise by `p`: `p` has acted, every other seat
    /// that can still act must act again.
    pub open spec fn reopened(self, p: int) -> Seq<bool> {
        Seq::new(
            NUM_PLAYERS as nat,
            |i: int| if i == p { true } else if self.can_act(i) { false } else { self.has_acted[i] },
        )
    }

    /// `has_acted` after an all-in by `p` to a bet of `new_bet`: when `full`,
    /// every other seat that can act must act again; otherwise those below `new_bet`.
    pub open spec fn reopened_by_allin(self, p: int, full: bool, new_bet: int) -> Seq<bool> {
        Seq::new(
            NUM_PLAYERS as nat,
            |i: int|
                if i == p {
                    true
                } else if self.can_act(i) && (full || self.bets[i] < new_bet) {
                    false
                } else {
                    self.has_acted[i]
                },
        )
    }

    /// This state with the turn passed on from the seat that just acted.
    pub open spec fn pass_turn(self) -> StateModel {
        StateModel { to_act: self.next_actor(self.to_act as int) as u8, ..self }
    }

    /// The acting seat folds.
    pub open spec fn fold_step(self) -> StateModel {
        let p = self.to_act as int;
        StateModel {
            folded: self.folded.update(p, true),
            has_acted: self.has_acted.update(p, true),
            ..self
        }
    }

    /// The acting seat checks.
    pub open spec fn check_step(self) -> StateModel {
        let p = self.to_act as int;
        StateModel { has_acted: self.has_acted.update(p, true), ..self }
    }

    /// Chips moved by a call: what is owed, capped by the stack.
    pub open spec fn call_amount(self) -> int {
        if self.to_call() < self.my_stack() { self.to_call() } else { self.my_stack() }
    }

    /// The acting seat calls (all-in when the call takes its whole stack).
    pub open spec fn call_step(self) -> StateModel {
        let p = self.to_act as int;
        let stack = self.my_stack() - self.call_amount();
        StateModel {
            stacks: self.stacks.update(p, stack as i32),
            bets: self.bets.update(p, (self.my_bet() + self.call_amount()) as i32),
            has_acted: self.has_acted.update(p, true),
            all_in: if stack == 0 { self.all_in.update(p, true) } else { self.all_in },
            ..self
        }
    }

    /// The acting seat's chips and the raise counters after raising to `total`,
    /// before the other seats are reopened.
    pub open spec fn raise_chips(self, total: i32) -> StateModel {
        let p = self.to_act as int;
        let stack = self.my_stack() - (total - self.my_bet());
        StateModel {
            stacks: self.stacks.update(p, stack as i32),
            bets: self.bets.update(p, total),
            n_raises: (self.n_raises + 1) as u8,
            last_raise_size: (total - self.max_bet()) as i32,
            all_in: if stack == 0 { self.all_in.update(p, true) } else { self.all_in },
            ..self
        }
    }

    /// The acting seat raises to `total`; every other seat that can act must act again.
    pub open spec fn raise_step(self, total: i32) -> StateModel {
        let m1 = self.raise_chips(total);
        StateModel { has_acted: m1.reopened(self.to_act as int), ..m1 }
    }

    /// The acting seat's total bet after going all-in.
    pub open spec fn allin_bet(self) -> int {
        self.my_bet() + self.my_stack()
    }

    /// The all-in puts in more than the largest bet.
    pub open spec fn allin_raises(self) -> bool {
        self.allin_bet() > self.max_bet()
    }

    /// The all-in raises by at least the last full raise.
    pub open spec fn allin_full_raise(self) -> bool {
        self.allin_raises() && self.allin_bet() - self.max_bet() >= self.last_raise_size
    }

    /// The acting seat's chips and the raise counters after going all-in.
    pub open spec fn allin_chips(self) -> StateModel {
        let p = self.to_act as int;
        let full = self.allin_full_raise();
        StateModel {
            stacks: self.stacks.update(p, 0i32),
            bets: self.bets.update(p, self.allin_bet() as i32),
            all_in: self.all_in.update(p, true),
            has_acted: self.has_acted.update(p, true),
            n_raises: if full { (self.n_raises + 1) as u8 } else { self.n_raises },
            last_raise_size: if full { (self.allin_bet() - self.max_bet()) as i32 } else { self.last_raise_size },
            ..self
        }
    }

    /// The acting seat goes all-in. A full raise reopens the action for every seat
    /// that can act; a short one for those whose bet is now below it.
    pub open spec fn allin_step(self) -> StateModel {
        let m1 = self.allin_chips();
        if self.allin_raises() {
            StateModel {
                has_acted: m1.reopened_by_allin(self.to_act as int, self.allin_full_raise(), self.allin_bet()),
                ..m1
            }
        } else {
            m1
        }
    }

    /// What `a` does at the table, before the turn passes on.
    pub open spec fn step(self, a: PreflopAction) -> StateModel {
        match a {
            PreflopAction::Fold => self.fold_step(),
            PreflopAction::Check => self.check_step(),
            PreflopAction::Call => self.call_step(),
            PreflopAction::Raise(total) => self.raise_step(total),
            PreflopAction::AllIn => self.allin_step(),
        }
    }

    /// The state after the seat to act takes `a`.
    pub open spec fn apply(self, a: PreflopAction) -> StateModel {
        self.step(a).pass_turn()
    }

    /// One entry per seat in every per-seat sequence, and a seat to act.
    pub open spec fn shaped(self) -> bool {
        &&& self.stacks.len() == NUM_PLAYERS
        &&& self.bets.len() == NUM_PLAYERS
        &&& self.folded.len() == NUM_PLAYERS
        &&& self.has_acted.len() == NUM_PLAYERS
        &&& self.all_in.len() == NUM_PLAYERS
        &&& self.holes.len() == NUM_PLAYERS
        &&& self.to_act < NUM_PLAYERS
    }

    /// Well-formed: one entry per seat, a seat to act, no negative chip counts,
    /// each seat's chips fit in an `i32`, and an all-in seat has nothing behind.
    pub open spec fn wf(self) -> bool {
        &&& self.shaped()
        &&& forall|i: int| 0 <= i < NUM_PLAYERS ==> {
            &&& 0 <= #[trigger] self.stacks[i]
            &&& 0 <= self.bets[i]
            &&& self.stacks[i] + self.bets[i] <= i32::MAX
            &&& self.all_in[i] ==> self.stacks[i] == 0
        }
    }

    /// Every chip count that applying `a` computes fits in an `i32` (and the raise
    /// counter in a `u8`), and the seat to act is a seat.
    pub open spec fn apply_fits(self, a: PreflopAction) -> bool {
        &&& self.to_act < NUM_PLAYERS
        &&& match a {
            PreflopAction::Fold | PreflopAction::Check => true,
            PreflopAction::Call => {
                &&& i32::MIN <= self.to_call() <= i32::MAX
                &&& i32::MIN <= self.my_stack() - self.call_amount() <= i32::MAX
                &&& i32::MIN <= self.my_bet() + self.call_amount() <= i32::MAX
            },
            PreflopAction::Raise(total) => {
                &&& i32::MIN <= total - self.max_bet() <= i32::MAX
                &&& i32::MIN <= total - self.my_bet() <= i32::MAX
                &&& i32::MIN <= self.my_stack() - (total - self.my_bet()) <= i32::MAX
                &&& self.n_raises < u8::MAX
            },
            PreflopAction::AllIn => {
                &&& i32::MIN <= self.my_bet() + self.my_stack() <= i32::MAX
                &&& self.my_bet() + self.my_stack() > self.max_bet() ==> {
                    &&& self.my_bet() + self.my_stack() - self.max_bet() <= i32::MAX
                    &&& self.n_raises < u8::MAX
                }
            },
        }
    }
}


/// The state that opens a 6-max hand of 100bb stacks.
pub open spec fn six_max_start(config: ConfigModel) -> StateModel {
    StateModel {
        stacks: seq![200i32, 200, 200, 200, 199, 198],
        bets: seq![0i32, 0, 0, 0, 1, 2],
        folded: seq![false, false, false, false, false, false],
        has_acted: seq![false, false, false, false, false, false],
        all_in: seq![false, false, false, false, false, false],
        to_act: 0,
        n_raises: 0,
        holes: seq![0u64, 0, 0, 0, 0, 0],
        config: config,
        last_raise_size: 2,
    }
}

/// The state that opens a hand of `num_active` players with `stack_chips` each:
/// the front seats are folded with empty stacks, SB and BB post 1 and 2 chips,
/// heads-up the SB acts first, otherwise the first active seat.
pub open spec fn generic_start(num_active: int, stack_chips: int, config: ConfigModel) -> StateModel {
    let first = NUM_PLAYERS - num_active;
    StateModel {
        stacks: Seq::new(
            NUM_PLAYERS as nat,
            |i: int|
                if i < first {
                    0i32
                } else if i == 4 {
                    (stack_chips - 1) as i32
                } else if i == 5 {
                    (stack_chips - 2) as i32
                } else {
                    stack_chips as i32
                },
        ),
        bets: seq![0i32, 0, 0, 0, 1, 2],
        folded: Seq::new(NUM_PLAYERS as nat, |i: int| i < first),
        has_acted: Seq::new(NUM_PLAYERS as nat, |i: int| i < first),
        all_in: seq![false, false, false, false, false, false],
        to_act: if num_active == 2 { SB_SEAT } else { first as u8 },
        n_raises: 0,
        holes: seq![0u64, 0, 0, 0, 0, 0],
        config: config,
        last_raise_size: 2,
    }
}

/// The heads-up start: seats 0-3 folded, SB and BB with 100bb, SB to act.
pub open spec fn heads_up_start(config: ConfigModel) -> StateModel {
    StateModel {
        stacks: seq![0i32, 0, 0, 0, 199, 198],
        bets: seq![0i32, 0, 0, 0, 1, 2],
        folded: seq![true, true, true, true, false, false],
        has_acted: seq![true, true, true, true, false, false],
        all_in: seq![false, false, false, false, false, false],
        to_act: SB_SEAT,
        n_raises: 0,
        holes: seq![0u64, 0, 0, 0, 0, 0],
        config: config,
        last_raise_size: 2,
    }
}

impl PreflopState {
    /// 6-max hand with 100bb (200 chips) stacks; UTG acts first.
    pub fn new_6max(config: PreflopBetConfig) -> (r: Self)
        ensures
            r@ == six_max_start(config@),
    {
        let r = PreflopState {
            stacks: [200, 200, 200, 200, 199, 198],
            bets: [0, 0, 0, 0, 1, 2],
            folded: [false, false, false, false, false, false],
            has_acted: [false, false, false, false, false, false],
            all_in: [false, false, false, false, false, false],
            to_act: 0,
            n_raises: 0,
            holes: [0, 0, 0, 0, 0, 0],
            config,
            last_raise_size: 2,
        };
        assert(r@ =~~= six_max_start(r.config@));
        r
    }

    /// Hand of `num_active` players (2..=6) with `stack_chips` chips each.
    /// Seats `0..6 - num_active` are folded with empty stacks.
    pub fn new_generic(num_active: usize, stack_chips: i32, config: PreflopBetConfig) -> (r: Self)
        requires
            2 <= num_active <= 6,
            stack_chips >= i32::MIN + 2,
        ensures
            r@ == generic_start(num_active as int, stack_chips as int, config@),
    {
        let first_active = NUM_PLAYERS - num_active;
        let mut stacks: [i32; NUM_PLAYERS] = [0, 0, 0, 0, 0, 0];
        let mut folded: [bool; NUM_PLAYERS] = [false, false, false, false, false, false];
        let mut has_acted: [bool; NUM_PLAYERS] = [false, false, false, false, false, false];
        let mut i: usize = 0;
        while i < NUM_PLAYERS
            invariant
                i <= NUM_PLAYERS,
                first_active == NUM_PLAYERS - num_active,
                forall|j: int| 0 <= j < i ==> #[trigger] stacks@[j] == (if j < first_active { 0i32 } else { stack_chips }),
                forall|j: int| 0 <= j < i ==> #[trigger] folded@[j] == (j < first_active),
                forall|j: int| 0 <= j < i ==> #[trigger] has_acted@[j] == (j < first_active),
                forall|j: int| i <= j < NUM_PLAYERS ==> #[trigger] stacks@[j] == 0i32,
                forall|j: int| i <= j < NUM_PLAYERS ==> !#[trigger] folded@[j],
                forall|j: int| i <= j < NUM_PLAYERS ==> !#[trigger] has_acted@[j],
            decreases NUM_PLAYERS - i,
        {
            if i < first_active {
                folded[i] = true;
                has_acted[i] = true;
            } else {
                stacks[i] = stack_chips;
            }
            i += 1;
        }
        stacks[4] = stacks[4] - 1;
        stacks[5] = stacks[5] - 2;
        let to_act: u8 = if num_active == 2 { SB_SEAT } else { first_active as u8 };
        let r = PreflopState {
            stacks,
            bets: [0, 0, 0, 0, 1, 2],
            folded,
            has_acted,
            all_in: [false, false, false, false, false, false],
            to_act,
            n_raises: 0,
            holes: [0, 0, 0, 0, 0, 0],
            config,
            last_raise_size: 2,
        };
        assert(r@ =~~= generic_start(num_active as int, stack_chips as int, r.config@));
        r
    }

    /// Heads-up hand (SB vs BB, 100bb). Seats 0-3 are folded.
    pub fn new_heads_up(config: PreflopBetConfig) -> (r: Self)
        ensures
            r@ == heads_up_start(config@),
    {
        let r = PreflopState {
            stacks: [0, 0, 0, 0, 199, 198],
            bets: [0, 0, 0, 0, 1, 2],
            folded: [true, true, true, true, false, false],
            has_acted: [true, true, true, true, false, false],
            all_in: [false, false, false, false, false, false],
            to_act: SB_SEAT,
            n_raises: 0,
            holes: [0, 0, 0, 0, 0, 0],
            config,
            last_raise_size: 2,
        };
        assert(r@ =~~= heads_up_start(r.config@));
        r
    }
}

impl PreflopState {
    /// Number of seats that have not folded.
    pub fn active_count(&self) -> (r: usize)
        ensures
            r == self@.active_count(),
    {
        let mut n: usize = 0;
        let mut i: usize = 0;
        while i < NUM_PLAYERS
            invariant
                i <= NUM_PLAYERS,
                n == self@.live_count_below(i as int),
                n <= i,
            decreases NUM_PLAYERS - i,
        {
            if !self.folded[i] {
                n += 1;
            }
            i += 1;
        }
        n
    }

    /// Number of seats that have neither folded nor gone all-in.
    pub fn active_non_allin_count(&self) -> (r: usize)
        ensures
            r == self@.active_non_allin_count(),
    {
        let mut n: usize = 0;
        let mut i: usize = 0;
        while i < NUM_PLAYERS
            invariant
                i <= NUM_PLAYERS,
                n == self@.actor_count_below(i as int),
                n <= i,
            decreases NUM_PLAYERS - i,
        {
            if !self.folded[i] && !self.all_in[i] {
                n += 1;
            }
            i += 1;
        }
        n
    }

    /// The largest bet at the table.
    pub fn max_bet(&self) -> (r: i32)
        ensures
            r == self@.max_bet(),
    {
        let mut m: i32 = self.bets[0];
        let mut i: usize = 1;
        while i < NUM_PLAYERS
            invariant
                1 <= i <= NUM_PLAYERS,
                m == prefix_max(self.bets@, i as int),
            decreases NUM_PLAYERS - i,
        {
            if self.bets[i] > m {
                m = self.bets[i];
            }
            i += 1;
        }
        m
    }

    /// Whether betting is over: at most one seat left, or every seat that can
    /// still act has acted and matched the largest bet.
    pub fn is_closed(&self) -> (r: bool)
        ensures
            r == self@.is_closed(),
    {
        if self.active_count() <= 1 {
            return true;
        }
        let mb = self.max_bet();
        let mut i: usize = 0;
        while i < NUM_PLAYERS
            invariant
                i <= NUM_PLAYERS,
                mb == self@.max_bet(),
                self@.active_count() > 1,
                forall|j: int|
                    0 <= j < i && #[trigger] self@.can_act(j) ==> self@.has_acted[j] && self@.bets[j]
                        == self@.max_bet(),
            decreases NUM_PLAYERS - i,
        {
            if !self.folded[i] && !self.all_in[i] {
                if !self.has_acted[i] || self.bets[i] != mb {
                    assert(self@.can_act(i as int));
                    return false;
                }
            }
            i += 1;
        }
        true
    }

    /// Fold win for the last seat left, showdown when betting is over, else a
    /// decision for the seat to act.
    pub fn node_type(&self) -> (r: PreflopNodeType)
        ensures
            r == self@.node_type(),
    {
        if self.active_count() == 1 {
            let mut i: usize = 0;
            while i < NUM_PLAYERS
                invariant
                    i <= NUM_PLAYERS,
                    self@.first_live_from(0) == self@.first_live_from(i as int),
                    self@.active_count() == 1,
                decreases NUM_PLAYERS - i,
            {
                if !self.folded[i] {
                    assert(self@.live(i as int));
                    assert(self@.first_live_from(i as int) == i);
                    return PreflopNodeType::TerminalFold(i as u8);
                }
                i += 1;
            }
            return PreflopNodeType::TerminalFold(6);
        }
        if self.is_closed() {
            return PreflopNodeType::TerminalShowdown;
        }
        PreflopNodeType::Decision(self.to_act)
    }

    /// The next seat after `after`, going round the table, that can still act;
    /// `after` itself when none can.
    pub fn next_active_player(&self, after: u8) -> (r: u8)
        ensures
            r as int == self@.next_actor(after as int),
    {
        let mut p: usize = (after as usize + 1) % NUM_PLAYERS;
        let mut k: usize = 1;
        while k <= NUM_PLAYERS
            invariant
                1 <= k <= NUM_PLAYERS + 1,
                p == (after as int + k) % (NUM_PLAYERS as int),
                self@.next_actor(after as int) == self@.next_actor_from(after as int, k as int),
            decreases NUM_PLAYERS + 1 - k,
        {
            if !self.folded[p] && !self.all_in[p] {
                return p as u8;
            }
            p = (p + 1) % NUM_PLAYERS;
            k += 1;
        }
        after
    }
}

impl PreflopState {
    /// The legal actions of the seat to act, in order: fold or check first,
    /// then call, then the configured raises that are legal, then all-in.
    pub fn actions(&self) -> (r: Vec<PreflopAction>)
        requires
            self.to_act < NUM_PLAYERS,
        ensures
            r@ == self@.actions(),
    {
        let ghost m = self@;
        let p = self.to_act as usize;
        let my_bet = self.bets[p] as i64;
        let my_stack = self.stacks[p] as i64;
        let max_bet = self.max_bet() as i64;
        let to_call = max_bet - my_bet;
        let mut actions: Vec<PreflopAction> = Vec::new();
        let depth = self.n_raises as usize;
        assert(m.my_bet() == my_bet && m.my_stack() == my_stack && m.to_call() == to_call);
        if to_call > 0 {
            actions.push(PreflopAction::Fold);
            if to_call >= my_stack {
                actions.push(PreflopAction::AllIn);
                assert(actions@ =~= m.actions());
                return actions;
            }
            if self.n_raises > 0 || (p == 4 && self.config.sb_limp) {
                actions.push(PreflopAction::Call);
            }
            let ghost prefix = actions@;
            assert(prefix == seq![PreflopAction::Fold] + (if m.call_offered() {
                seq![PreflopAction::Call]
            } else {
                Seq::<PreflopAction>::empty()
            }));
            if depth < self.config.raise_sizes.len() {
                let sizes = &self.config.raise_sizes[depth];
                assert(sizes@ == m.depth_sizes());
                let mut j: usize = 0;
                while j < sizes.len()
                    invariant
                        j <= sizes@.len(),
                        sizes@ == m.depth_sizes(),
                        m == self@,
                        p == m.to_act,
                        depth == m.n_raises,
                        my_bet == m.my_bet(),
                        my_stack == m.my_stack(),
                        max_bet == m.max_bet(),
                        to_call == m.to_call(),
                        i32::MIN <= max_bet <= i32::MAX,
                        i32::MIN <= my_bet <= i32::MAX,
                        actions@ == prefix + m.depth_sizes().take(j as int).filter_map(m.facing_pick()),
                    decreases sizes.len() - j,
                {
                    let total: i32 = if depth == 0 && p == 4 {
                        match self.config.sb_open_size {
                            Some(s) => s,
                            None => sizes[j],
                        }
                    } else {
                        sizes[j]
                    };
                    assert(total == m.offered_size(m.depth_sizes()[j as int]));
                    let raise_amount = total as i64 - max_bet;
                    let chips_needed = total as i64 - my_bet;
                    proof {
                        m.depth_sizes().lemma_filter_map_take_succ(m.facing_pick(), j as int);
                    }
                    if raise_amount >= self.last_raise_size as i64 && chips_needed < my_stack
                        && chips_needed > to_call {
                        actions.push(PreflopAction::Raise(total));
                    }
                    j += 1;
                    assert(actions@ =~= prefix + m.depth_sizes().take(j as int).filter_map(m.facing_pick()));
                }
                assert(m.depth_sizes().take(sizes@.len() as int) =~= m.depth_sizes());
            } else {
                assert(m.depth_sizes() =~= Seq::<i32>::empty());
                assert(m.depth_sizes().take(0) =~= m.depth_sizes());
            }
            if my_stack > to_call && self.n_raises >= self.config.min_allin_depth {
                actions.push(PreflopAction::AllIn);
            }
            assert(actions@ =~= m.actions());
        } else {
            actions.push(PreflopAction::Check);
            let ghost prefix = actions@;
            if depth < self.config.raise_sizes.len() {
                let sizes = &self.config.raise_sizes[depth];
                assert(sizes@ == m.depth_sizes());
                let mut j: usize = 0;
                while j < sizes.len()
                    invariant
                        j <= sizes@.len(),
                        sizes@ == m.depth_sizes(),
                        my_bet == m.my_bet(),
                        my_stack == m.my_stack(),
                        i32::MIN <= my_bet <= i32::MAX,
                        actions@ == prefix + m.depth_sizes().take(j as int).filter_map(m.unfaced_pick()),
                    decreases sizes.len() - j,
                {
                    let total = sizes[j];
                    let chips_needed = total as i64 - my_bet;
                    proof {
                        m.depth_sizes().lemma_filter_map_take_succ(m.unfaced_pick(), j as int);
                    }
                    if chips_needed < my_stack && chips_needed > 0 {
                        actions.push(PreflopAction::Raise(total));
                    }
                    j += 1;
                    assert(actions@ =~= prefix + m.depth_sizes().take(j as int).filter_map(m.unfaced_pick()));
                }
                assert(m.depth_sizes().take(sizes@.len() as int) =~= m.depth_sizes());
            } else {
                assert(m.depth_sizes() =~= Seq::<i32>::empty());
                assert(m.depth_sizes().take(0) =~= m.depth_sizes());
            }
            if my_stack > 0 && self.n_raises >= self.config.min_allin_depth {
                actions.push(PreflopAction::AllIn);
            }
            assert(actions@ =~= m.actions());
        }
        actions
    }
}

impl Clone for PreflopState {
    fn clone(&self) -> (r: Self)
        ensures
            r@ == self@,
    {
        PreflopState {
            stacks: self.stacks,
            bets: self.bets,
            folded: self.folded,
            has_acted: self.has_acted,
            all_in: self.all_in,
            to_act: self.to_act,
            n_raises: self.n_raises,
            holes: self.holes,
            config: self.config.duplicate(),
            last_raise_size: self.last_raise_size,
        }
    }
}

impl PreflopState {
    /// Clears `has_acted` for every seat other than `p` that can still act and
    /// whose bet is below `new_bet` (every such seat when `full`).
    fn reopen_action(&mut self, p: usize, full: bool, new_bet: i32)
        requires
            p < NUM_PLAYERS,
            old(self).has_acted[p as int],
        ensures
            final(self)@ == (StateModel { has_acted: old(self)@.reopened_by_allin(p as int, full, new_bet as int), ..old(self)@ }),
    {
        let ghost m = self@;
        let mut i: usize = 0;
        while i < NUM_PLAYERS
            invariant
                i <= NUM_PLAYERS,
                p < NUM_PLAYERS,
                m.has_acted[p as int],
                self@ == (StateModel { has_acted: self@.has_acted, ..m }),
                forall|j: int| 0 <= j < i ==> #[trigger] self@.has_acted[j] == m.reopened_by_allin(p as int, full, new_bet as int)[j],
                forall|j: int| i <= j < NUM_PLAYERS ==> #[trigger] self@.has_acted[j] == m.has_acted[j],
            decreases NUM_PLAYERS - i,
        {
            if i != p && !self.folded[i] && !self.all_in[i] && (full || self.bets[i] < new_bet) {
                self.has_acted[i] = false;
            }
            i += 1;
        }
        assert(self@.has_acted =~= m.reopened_by_allin(p as int, full, new_bet as int));
        assert(self@ =~~= (StateModel { has_acted: m.reopened_by_allin(p as int, full, new_bet as int), ..m }));
    }

    /// The state after the seat to act takes `action`.
    pub fn apply(&self, action: PreflopAction) -> (r: PreflopState)
        requires
            self@.apply_fits(action),
        ensures
            r@ == self@.apply(action),
    {
        let ghost m = self@;
        let mut s = self.clone();
        let p = s.to_act as usize;
        match action {
            PreflopAction::Fold => {
                s.folded[p] = true;
                s.has_acted[p] = true;
                let ghost m1 = s@;
                assert(m1 =~~= (StateModel {
                    folded: m.folded.update(p as int, true),
                    has_acted: m.has_acted.update(p as int, true),
                    ..m
                }));
                s.to_act = s.next_active_player(s.to_act);
                assert(s@ =~~= m.apply(action));
            },
            PreflopAction::Check => {
                s.has_acted[p] = true;
                let ghost m1 = s@;
                assert(m1 =~~= (StateModel { has_acted: m.has_acted.update(p as int, true), ..m }));
                s.to_act = s.next_active_player(s.to_act);
                assert(s@ =~~= m.apply(action));
            },
            PreflopAction::Call => {
                let max_bet = s.max_bet();
                let to_call = max_bet - s.bets[p];
                let actual = if to_call < s.stacks[p] { to_call } else { s.stacks[p] };
                s.stacks[p] = s.stacks[p] - actual;
                s.bets[p] = s.bets[p] + actual;
                s.has_acted[p] = true;
                if s.stacks[p] == 0 {
                    s.all_in[p] = true;
                }
                assert(actual == m.call_amount());
                s.to_act = s.next_active_player(s.to_act);
                assert(s@ =~~= m.apply(action));
            },
            PreflopAction::Raise(total_bet) => {
                let raise_size = total_bet - s.max_bet();
                let chips_needed = total_bet - s.bets[p];
                s.stacks[p] = s.stacks[p] - chips_needed;
                s.bets[p] = total_bet;
                s.has_acted[p] = true;
                s.n_raises = s.n_raises + 1;
                s.last_raise_size = raise_size;
                if s.stacks[p] == 0 {
                    s.all_in[p] = true;
                }
                let ghost m1 = s@;
                s.reopen_action(p, true, total_bet);
                assert(m1.reopened_by_allin(p as int, true, total_bet as int) =~= m1.reopened(p as int));
                let ghost stack_after = m.my_stack() - (total_bet - m.my_bet());
                let ghost sm1 = StateModel {
                    stacks: m.stacks.update(p as int, stack_after as i32),
                    bets: m.bets.update(p as int, total_bet),
                    n_raises: (m.n_raises + 1) as u8,
                    last_raise_size: (total_bet - m.max_bet()) as i32,
                    all_in: if stack_after == 0 { m.all_in.update(p as int, true) } else { m.all_in },
                    ..m
                };
                assert(m1 =~~= StateModel { has_acted: m.has_acted.update(p as int, true), ..sm1 });
                assert(m1.reopened(p as int) =~= sm1.reopened(p as int));
                s.to_act = s.next_active_player(s.to_act);
                assert(s@ =~~= m.apply(action));
            },
            PreflopAction::AllIn => {
                let allin_amount = s.stacks[p];
                let old_max = s.max_bet();
                s.bets[p] = s.bets[p] + allin_amount;
                s.stacks[p] = 0;
                s.all_in[p] = true;
                s.has_acted[p] = true;
                if s.bets[p] > old_max {
                    let raise_size = s.bets[p] - old_max;
                    let full = raise_size >= s.last_raise_size;
                    if full {
                        s.n_raises = s.n_raises + 1;
                        s.last_raise_size = raise_size;
                    }
                    let new_bet = s.bets[p];
                    s.reopen_action(p, full, new_bet);
                }
                s.to_act = s.next_active_player(s.to_act);
            },
        }
        assert(s@ =~~= m.apply(action));
        s
    }
}

} // verus!
