//! Settling a hand: chips won when everyone else folds, and the side pots
//! of a showdown with the seats that win each of them.

use vstd::prelude::*;
use crate::state::{PreflopState, StateModel, NUM_PLAYERS, prefix_sum};

verus! {

/// Seat `i` is still in the hand with a bet above `prev`.
pub open spec fn live_above(m: StateModel, prev: int, i: int) -> bool {
    m.live(i) && m.bets[i] > prev
}

/// Number of seats below `n` still in the hand with a bet above `prev`.
pub open spec fn count_live_above(m: StateModel, prev: int, n: int) -> nat
    decreases n,
{
    if n <= 0 { 0 } else { count_live_above(m, prev, n - 1) + if live_above(m, prev, n - 1) { 1nat } else { 0nat } }
}

/// The smallest bet above `prev` of a seat below `n` still in the hand.
pub open spec fn min_live_above(m: StateModel, prev: int, n: int) -> Option<int>
    decreases n,
{
    if n <= 0 {
        None
    } else {
        let r = min_live_above(m, prev, n - 1);
        if live_above(m, prev, n - 1) {
            match r {
                Some(v) => Some(if m.bets[n - 1] < v { m.bets[n - 1] as int } else { v }),
                None => Some(m.bets[n - 1] as int),
            }
        } else {
            r
        }
    }
}

/// The chips the seats below `n` put in between the levels `prev` and `level`.
pub open spec fn layer_chips(m: StateModel, prev: int, level: int, n: int) -> int
    decreases n,
{
    if n <= 0 {
        0
    } else {
        let b = m.bets[n - 1] as int;
        layer_chips(m, prev, level, n - 1) + (if b < level { b } else { level }) - (if b < prev { b } else { prev })
    }
}

/// Seat `i` can win the layer up to `level`: it is in the hand and bet at least `level`.
pub open spec fn eligible(m: StateModel, level: int, i: int) -> bool {
    m.live(i) && m.bets[i] >= level
}

/// The best strength of a seat below `n` that can win the layer up to `level`.
pub open spec fn best_strength(m: StateModel, s: Seq<u64>, level: int, n: int) -> Option<u64>
    decreases n,
{
    if n <= 0 {
        None
    } else {
        let r = best_strength(m, s, level, n - 1);
        if eligible(m, level, n - 1) {
            match r {
                Some(v) => Some(if s[n - 1] > v { s[n - 1] } else { v }),
                None => Some(s[n - 1]),
            }
        } else {
            r
        }
    }
}

/// The seats below `n`, in order, that can win the layer up to `level` and
/// hold the strength `best`.
pub open spec fn winners_below(m: StateModel, s: Seq<u64>, level: int, best: u64, n: int) -> Seq<usize>
    decreases n,
{
    if n <= 0 {
        Seq::empty()
    } else {
        winners_below(m, s, level, best, n - 1) + if eligible(m, level, n - 1) && s[n - 1] == best {
            seq![(n - 1) as usize]
        } else {
            Seq::empty()
        }
    }
}

proof fn lemma_count_positive(m: StateModel, prev: int, k: int, i: int)
    requires
        0 <= i < k,
        live_above(m, prev, i),
    ensures
        count_live_above(m, prev, k) > 0,
    decreases k,
{
    if i < k - 1 {
        lemma_count_positive(m, prev, k - 1, i);
    }
}

pub proof fn lemma_min_live_above(m: StateModel, prev: int, n: int)
    requires
        0 <= n <= NUM_PLAYERS,
    ensures
        min_live_above(m, prev, n) is None <==> count_live_above(m, prev, n) == 0,
        min_live_above(m, prev, n) matches Some(l) ==> {
            &&& l > prev
            &&& exists|i: int| 0 <= i < n && live_above(m, prev, i) && m.bets[i] == l
            &&& forall|i: int| 0 <= i < n && live_above(m, prev, i) ==> m.bets[i] >= l
        },
    decreases n,
{
    if n > 0 {
        lemma_min_live_above(m, prev, n - 1);
        let r = min_live_above(m, prev, n - 1);
        if live_above(m, prev, n - 1) {
            match r {
                Some(v) => {
                    let i0 = choose|i: int| 0 <= i < n - 1 && live_above(m, prev, i) && m.bets[i] == v;
                    if m.bets[n - 1] < v {
                        assert(live_above(m, prev, n - 1) && m.bets[n - 1] == min_live_above(m, prev, n)->0);
                    } else {
                        assert(live_above(m, prev, i0) && m.bets[i0] == min_live_above(m, prev, n)->0);
                    }
                },
                None => {
                    assert(live_above(m, prev, n - 1) && m.bets[n - 1] == min_live_above(m, prev, n)->0);
                },
            }
            let l = min_live_above(m, prev, n)->0;
            assert forall|i: int| 0 <= i < n && live_above(m, prev, i) implies m.bets[i] >= l by {
                if i < n - 1 {
                    lemma_count_positive(m, prev, n - 1, i);
                    assert(r is Some);
                    assert(m.bets[i] >= r->0);
                }
            }
        }
    }
}

pub proof fn lemma_count_above_drops(m: StateModel, prev: int, l: int, j: int, n: int)
    requires
        0 <= n <= NUM_PLAYERS,
        l > prev,
        forall|i: int| 0 <= i < n && live_above(m, prev, i) ==> m.bets[i] >= l,
    ensures
        count_live_above(m, l, n) <= count_live_above(m, prev, n),
        0 <= j < n && live_above(m, prev, j) && m.bets[j] == l ==> count_live_above(m, l, n) < count_live_above(m, prev, n),
    decreases n,
{
    if n > 0 {
        lemma_count_above_drops(m, prev, l, j, n - 1);
    }
}

/// The side pots from level `prev` up: for each higher level a seat still in
/// the hand bet, from the lowest, the chips every seat put in between the
/// previous level and it, and the seats that win them: those still in the
/// hand that bet at least the level and hold the best strength among them.
/// Layers with no chips are left out.
pub open spec fn layers_from(m: StateModel, s: Seq<u64>, prev: int) -> Seq<(int, Seq<usize>)>
    decreases count_live_above(m, prev, NUM_PLAYERS as int),
{
    match min_live_above(m, prev, NUM_PLAYERS as int) {
        None => Seq::empty(),
        Some(l) => {
            proof {
                lemma_min_live_above(m, prev, NUM_PLAYERS as int);
                let j = choose|j: int| 0 <= j < NUM_PLAYERS && live_above(m, prev, j) && m.bets[j] == l;
                lemma_count_above_drops(m, prev, l, j, NUM_PLAYERS as int);
            }
            let chips = layer_chips(m, prev, l, NUM_PLAYERS as int);
            let best = best_strength(m, s, l, NUM_PLAYERS as int);
            (if chips > 0 && best is Some {
                seq![(chips, winners_below(m, s, l, best->0, NUM_PLAYERS as int))]
            } else {
                Seq::empty()
            }) + layers_from(m, s, l)
        },
    }
}

/// One side pot: its chips and the seats that share it.
pub struct PotLayer {
    pub chips: i32,
    pub winners: Vec<usize>,
}

/// The views of a list of side pots.
pub open spec fn layer_views(v: Seq<PotLayer>) -> Seq<(int, Seq<usize>)> {
    v.map_values(|p: PotLayer| (p.chips as int, p.winners@))
}

/// Chips each seat wins or loses when `winner` takes the pot uncontested.
pub open spec fn fold_chip_result(m: StateModel, winner: int, i: int) -> int {
    if i == winner { m.pot() - m.bets[i] } else { -(m.bets[i] as int) }
}

fn sum_bets(bets: &[i32; NUM_PLAYERS]) -> (r: i64)
    requires
        forall|i: int| 0 <= i < NUM_PLAYERS ==> 0 <= #[trigger] bets@[i],
    ensures
        r == prefix_sum(bets@, NUM_PLAYERS as int),
        r >= 0,
{
    let mut sum: i64 = 0;
    let mut i: usize = 0;
    while i < NUM_PLAYERS
        invariant
            i <= NUM_PLAYERS,
            forall|k: int| 0 <= k < NUM_PLAYERS ==> 0 <= #[trigger] bets@[k],
            sum == prefix_sum(bets@, i as int),
            0 <= sum <= i * i32::MAX,
        decreases NUM_PLAYERS - i,
    {
        sum = sum + bets[i] as i64;
        i += 1;
    }
    sum
}

impl PreflopState {
    /// Chips won or lost by each seat when `winner` takes the pot uncontested:
    /// the winner gains the pot less its own bet, every other seat loses its bet.
    pub fn payoff_fold_chips(&self, winner: u8) -> (r: [i32; NUM_PLAYERS])
        requires
            self@.wf(),
            self@.pot() <= i32::MAX,
        ensures
            forall|i: int| 0 <= i < NUM_PLAYERS ==> #[trigger] r@[i] == fold_chip_result(self@, winner as int, i),
    {
        assert forall|i: int| 0 <= i < NUM_PLAYERS implies 0 <= #[trigger] self.bets@[i] by {
            assert(0 <= self@.stacks[i]);
        }
        let sum = sum_bets(&self.bets);
        assert(self@.bets == self.bets@);
        let total = sum as i32;
        let mut r: [i32; NUM_PLAYERS] = [0, 0, 0, 0, 0, 0];
        let mut i: usize = 0;
        while i < NUM_PLAYERS
            invariant
                i <= NUM_PLAYERS,
                self@.wf(),
                total == self@.pot(),
                0 <= total,
                self@.pot() <= i32::MAX,
                forall|k: int| 0 <= k < NUM_PLAYERS ==> 0 <= #[trigger] self.bets@[k],
                forall|k: int| 0 <= k < i ==> #[trigger] r@[k] == fold_chip_result(self@, winner as int, k),
            decreases NUM_PLAYERS - i,
        {
            assert(0 <= self.bets@[i as int]);
            assert(0 <= total <= i32::MAX);
            if i == winner as usize {
                r[i] = total - self.bets[i];
            } else {
                r[i] = -self.bets[i];
            }
            i += 1;
        }
        r
    }
}

proof fn lemma_layer_chips_bounds(m: StateModel, prev: int, level: int, n: int)
    requires
        0 <= prev <= level,
        0 <= n <= NUM_PLAYERS,
        forall|i: int| 0 <= i < n ==> 0 <= #[trigger] m.bets[i],
    ensures
        0 <= layer_chips(m, prev, level, n) <= prefix_sum(m.bets, n),
    decreases n,
{
    if n > 0 {
        lemma_layer_chips_bounds(m, prev, level, n - 1);
    }
}

impl PreflopState {
    /// The smallest bet above `prev` of a seat still in the hand.
    fn next_level(&self, prev: i32) -> (r: Option<i32>)
        ensures
            match min_live_above(self@, prev as int, NUM_PLAYERS as int) {
                Some(l) => r matches Some(x) && x as int == l,
                None => r is None,
            },
    {
        let mut best: Option<i32> = None;
        let mut i: usize = 0;
        while i < NUM_PLAYERS
            invariant
                i <= NUM_PLAYERS,
                match min_live_above(self@, prev as int, i as int) {
                    Some(l) => best matches Some(x) && x as int == l,
                    None => best is None,
                },
            decreases NUM_PLAYERS - i,
        {
            if !self.folded[i] && self.bets[i] > prev {
                best = match best {
                    Some(v) => Some(if self.bets[i] < v { self.bets[i] } else { v }),
                    None => Some(self.bets[i]),
                };
            }
            i += 1;
        }
        best
    }

    /// The chips all seats put in between the levels `prev` and `level`.
    fn layer_chips_between(&self, prev: i32, level: i32) -> (r: i32)
        requires
            self@.wf(),
            self@.pot() <= i32::MAX,
            0 <= prev <= level,
        ensures
            r == layer_chips(self@, prev as int, level as int, NUM_PLAYERS as int),
    {
        assert forall|i: int| 0 <= i < NUM_PLAYERS implies 0 <= #[trigger] self@.bets[i] by {
            assert(0 <= self@.stacks[i]);
        }
        proof { lemma_layer_chips_bounds(self@, prev as int, level as int, NUM_PLAYERS as int); }
        let mut sum: i64 = 0;
        let mut i: usize = 0;
        while i < NUM_PLAYERS
            invariant
                i <= NUM_PLAYERS,
                0 <= prev <= level,
                forall|k: int| 0 <= k < NUM_PLAYERS ==> 0 <= #[trigger] self@.bets[k],
                sum == layer_chips(self@, prev as int, level as int, i as int),
                0 <= sum <= i * i32::MAX,
            decreases NUM_PLAYERS - i,
        {
            let b = self.bets[i];
            let hi = if b < level { b } else { level };
            let lo = if b < prev { b } else { prev };
            sum = sum + (hi as i64) - (lo as i64);
            i += 1;
        }
        sum as i32
    }

    /// The best strength of a seat that can win the layer up to `level`.
    fn best_at(&self, strengths: &[u64; NUM_PLAYERS], level: i32) -> (r: Option<u64>)
        ensures
            r == best_strength(self@, strengths@, level as int, NUM_PLAYERS as int),
    {
        let mut best: Option<u64> = None;
        let mut i: usize = 0;
        while i < NUM_PLAYERS
            invariant
                i <= NUM_PLAYERS,
                best == best_strength(self@, strengths@, level as int, i as int),
            decreases NUM_PLAYERS - i,
        {
            if !self.folded[i] && self.bets[i] >= level {
                best = match best {
                    Some(v) => Some(if strengths[i] > v { strengths[i] } else { v }),
                    None => Some(strengths[i]),
                };
            }
            i += 1;
        }
        best
    }

    /// The seats, in order, that can win the layer up to `level` and hold `best`.
    fn winners_at(&self, strengths: &[u64; NUM_PLAYERS], level: i32, best: u64) -> (r: Vec<usize>)
        ensures
            r@ == winners_below(self@, strengths@, level as int, best, NUM_PLAYERS as int),
    {
        let mut w: Vec<usize> = Vec::new();
        let mut i: usize = 0;
        while i < NUM_PLAYERS
            invariant
                i <= NUM_PLAYERS,
                w@ == winners_below(self@, strengths@, level as int, best, i as int),
            decreases NUM_PLAYERS - i,
        {
            if !self.folded[i] && self.bets[i] >= level && strengths[i] == best {
                w.push(i);
            }
            i += 1;
            assert(w@ =~= winners_below(self@, strengths@, level as int, best, i as int));
        }
        w
    }

    /// The side pots of a showdown, given each seat's hand strength (higher
    /// wins): for each bet level of a seat still in the hand, from the lowest,
    /// the chips every seat put in between the previous level and it, shared
    /// by the seats still in the hand that bet at least that level and hold
    /// the best strength among them (see [`layers_from`]).
    pub fn side_pots(&self, strengths: &[u64; NUM_PLAYERS]) -> (r: Vec<PotLayer>)
        requires
            self@.wf(),
            self@.pot() <= i32::MAX,
        ensures
            layer_views(r@) == layers_from(self@, strengths@, 0),
    {
        let ghost m = self@;
        let ghost s = strengths@;
        let mut out: Vec<PotLayer> = Vec::new();
        let mut prev: i32 = 0;
        let mut done = false;
        assert(layer_views(out@) =~= Seq::<(int, Seq<usize>)>::empty());
        while !done
            invariant
                m == self@,
                s == strengths@,
                self@.wf(),
                self@.pot() <= i32::MAX,
                prev >= 0,
                !done ==> layer_views(out@) + layers_from(m, s, prev as int) == layers_from(m, s, 0),
                done ==> layer_views(out@) == layers_from(m, s, 0),
            decreases count_live_above(m, prev as int, NUM_PLAYERS as int) + if done { 0int } else { 1int },
        {
            let ghost before = layer_views(out@);
            match self.next_level(prev) {
                None => {
                    assert(layers_from(m, s, prev as int) =~= Seq::<(int, Seq<usize>)>::empty());
                    assert(before + layers_from(m, s, prev as int) =~= before);
                    done = true;
                },
                Some(level) => {
                    proof {
                        lemma_min_live_above(m, prev as int, NUM_PLAYERS as int);
                        let j = choose|j: int| 0 <= j < NUM_PLAYERS && live_above(m, prev as int, j) && m.bets[j] == level;
                        lemma_count_above_drops(m, prev as int, level as int, j, NUM_PLAYERS as int);
                    }
                    let chips = self.layer_chips_between(prev, level);
                    let best = self.best_at(strengths, level);
                    let ghost item = if chips > 0 && best is Some {
                        seq![(chips as int, winners_below(m, s, level as int, best->0, NUM_PLAYERS as int))]
                    } else {
                        Seq::<(int, Seq<usize>)>::empty()
                    };
                    assert(layers_from(m, s, prev as int) == item + layers_from(m, s, level as int));
                    match best {
                        Some(b) => {
                            if chips > 0 {
                                let winners = self.winners_at(strengths, level, b);
                                out.push(PotLayer { chips, winners });
                            }
                        },
                        None => {},
                    }
                    assert(layer_views(out@) =~= before + item);
                    assert(layer_views(out@) + layers_from(m, s, level as int) =~= before + (item + layers_from(m, s, level as int)));
                    prev = level;
                },
            }
        }
        out
    }
}

/// The total chips of a list of side pots.
pub open spec fn layers_total(ls: Seq<(int, Seq<usize>)>) -> int
    decreases ls.len(),
{
    if ls.len() == 0 { 0 } else { ls[0].0 + layers_total(ls.drop_first()) }
}

/// The largest bet of a seat below `n` still in the hand (0 when none).
pub open spec fn top_live_bet(m: StateModel, n: int) -> int
    decreases n,
{
    if n <= 0 {
        0
    } else {
        let r = top_live_bet(m, n - 1);
        if m.live(n - 1) && m.bets[n - 1] > r { m.bets[n - 1] as int } else { r }
    }
}

proof fn lemma_layers_total_concat(a: Seq<(int, Seq<usize>)>, b: Seq<(int, Seq<usize>)>)
    ensures
        layers_total(a + b) == layers_total(a) + layers_total(b),
    decreases a.len(),
{
    if a.len() > 0 {
        assert((a + b).drop_first() =~= a.drop_first() + b);
        lemma_layers_total_concat(a.drop_first(), b);
    } else {
        assert(a + b =~= b);
    }
}

proof fn lemma_layer_chips_split(m: StateModel, prev: int, mid: int, top: int, n: int)
    requires
        prev <= mid <= top,
    ensures
        layer_chips(m, prev, mid, n) + layer_chips(m, mid, top, n) == layer_chips(m, prev, top, n),
    decreases n,
{
    if n > 0 {
        lemma_layer_chips_split(m, prev, mid, top, n - 1);
    }
}

proof fn lemma_layer_chips_nonneg(m: StateModel, prev: int, level: int, n: int)
    requires
        prev <= level,
    ensures
        layer_chips(m, prev, level, n) >= 0,
    decreases n,
{
    if n > 0 {
        lemma_layer_chips_nonneg(m, prev, level, n - 1);
    }
}

proof fn lemma_layer_chips_empty(m: StateModel, level: int, n: int)
    ensures
        layer_chips(m, level, level, n) == 0,
    decreases n,
{
    if n > 0 {
        lemma_layer_chips_empty(m, level, n - 1);
    }
}

proof fn lemma_top_live_bet(m: StateModel, n: int)
    requires
        0 <= n <= NUM_PLAYERS,
    ensures
        top_live_bet(m, n) >= 0,
        forall|i: int| 0 <= i < n && m.live(i) ==> m.bets[i] <= top_live_bet(m, n),
        top_live_bet(m, n) == 0 || exists|i: int| 0 <= i < n && m.live(i) && m.bets[i] == top_live_bet(m, n),
    decreases n,
{
    if n > 0 {
        lemma_top_live_bet(m, n - 1);
    }
}

proof fn lemma_best_exists(m: StateModel, s: Seq<u64>, level: int, n: int, j: int)
    requires
        0 <= j < n,
        eligible(m, level, j),
    ensures
        best_strength(m, s, level, n) is Some,
    decreases n,
{
    if j < n - 1 {
        lemma_best_exists(m, s, level, n - 1, j);
    }
}

/// The side pots from `prev` up hold exactly the chips put in between `prev`
/// and the largest bet of a seat still in the hand.
proof fn lemma_layers_total(m: StateModel, s: Seq<u64>, prev: int)
    requires
        prev >= 0,
    ensures
        layers_total(layers_from(m, s, prev)) == layer_chips(
            m,
            prev,
            if top_live_bet(m, NUM_PLAYERS as int) > prev { top_live_bet(m, NUM_PLAYERS as int) } else { prev },
            NUM_PLAYERS as int,
        ),
    decreases count_live_above(m, prev, NUM_PLAYERS as int),
{
    let top = top_live_bet(m, NUM_PLAYERS as int);
    lemma_min_live_above(m, prev, NUM_PLAYERS as int);
    lemma_top_live_bet(m, NUM_PLAYERS as int);
    match min_live_above(m, prev, NUM_PLAYERS as int) {
        None => {
            assert(layers_from(m, s, prev) =~= Seq::<(int, Seq<usize>)>::empty());
            assert(layers_total(Seq::<(int, Seq<usize>)>::empty()) == 0);
            if top > prev {
                let i = choose|i: int| 0 <= i < NUM_PLAYERS && m.live(i) && m.bets[i] == top;
                lemma_count_positive(m, prev, NUM_PLAYERS as int, i);
            }
            lemma_layer_chips_empty(m, prev, NUM_PLAYERS as int);
        },
        Some(l) => {
            let j = choose|j: int| 0 <= j < NUM_PLAYERS && live_above(m, prev, j) && m.bets[j] == l;
            lemma_count_above_drops(m, prev, l, j, NUM_PLAYERS as int);
            lemma_layers_total(m, s, l);
            lemma_best_exists(m, s, l, NUM_PLAYERS as int, j);
            assert(l <= top);
            let chips = layer_chips(m, prev, l, NUM_PLAYERS as int);
            let best = best_strength(m, s, l, NUM_PLAYERS as int);
            let item = if chips > 0 && best is Some {
                seq![(chips, winners_below(m, s, l, best->0, NUM_PLAYERS as int))]
            } else {
                Seq::<(int, Seq<usize>)>::empty()
            };
            assert(layers_from(m, s, prev) == item + layers_from(m, s, l));
            lemma_layers_total_concat(item, layers_from(m, s, l));
            lemma_layer_chips_nonneg(m, prev, l, NUM_PLAYERS as int);
            if chips > 0 {
                let x = (chips, winners_below(m, s, l, best->0, NUM_PLAYERS as int));
                assert(seq![x].drop_first() =~= Seq::<(int, Seq<usize>)>::empty());
                assert(layers_total(Seq::<(int, Seq<usize>)>::empty()) == 0);
                assert(layers_total(seq![x]) == chips);
            } else {
                assert(layers_total(item) == 0);
            }
            assert(layers_total(item) == chips);
            lemma_layer_chips_split(m, prev, l, top, NUM_PLAYERS as int);
            if top == l {
                lemma_layer_chips_empty(m, l, NUM_PLAYERS as int);
            }
        },
    }
}

/// Number of the seats below `n`, folded or not, whose bet is above `x`.
pub open spec fn seats_bet_above(m: StateModel, x: int, n: int) -> nat
    decreases n,
{
    if n <= 0 {
        0
    } else {
        seats_bet_above(m, x, n - 1) + if m.bets[n - 1] > x { 1nat } else { 0nat }
    }
}

/// Each single chip level of the pot, from `x` to `x + 1`, holds exactly one
/// chip from every seat that bet more than `x`, whether it folded or not:
/// a seat never puts more into a layer than the layer is deep.
pub proof fn law_each_chip_level_holds_a_chip_per_seat(m: StateModel, x: int, n: int)
    requires
        0 <= n <= NUM_PLAYERS,
    ensures
        layer_chips(m, x, x + 1, n) == seats_bet_above(m, x, n),
    decreases n,
{
    if n > 0 {
        law_each_chip_level_holds_a_chip_per_seat(m, x, n - 1);
    }
}

/// The layer between two levels is made of the layers between any level in
/// between and each end, and a layer of depth `d` holds at most `d` chips
/// from each seat and none when it is empty.
pub proof fn law_layers_stack_up(m: StateModel, prev: int, mid: int, level: int, n: int)
    requires
        prev <= mid <= level,
        0 <= n <= NUM_PLAYERS,
    ensures
        layer_chips(m, prev, mid, n) + layer_chips(m, mid, level, n) == layer_chips(m, prev, level, n),
        0 <= layer_chips(m, prev, level, n) <= n * (level - prev),
        layer_chips(m, level, level, n) == 0,
    decreases n,
{
    lemma_layer_chips_split(m, prev, mid, level, n);
    lemma_layer_chips_nonneg(m, prev, level, n);
    lemma_layer_chips_empty(m, level, n);
    if n > 0 {
        law_layers_stack_up(m, prev, mid, level, n - 1);
        assert((n - 1) * (level - prev) + (level - prev) == n * (level - prev)) by (nonlinear_arith);
    }
}

/// `chips` is what every seat put in between two levels above `prev`, the
/// upper one being the bet of a seat still in the hand.
pub open spec fn is_layer_above(m: StateModel, prev: int, chips: int) -> bool {
    exists|a: int, b: int|
        prev <= a < b && chips == #[trigger] layer_chips(m, a, b, NUM_PLAYERS as int)
            && exists|i: int| 0 <= i < NUM_PLAYERS && m.live(i) && m.bets[i] == b
}

/// Every side pot from level `prev` up holds exactly the chips all seats
/// (folded or not) put in between two bet levels above `prev`: so, by
/// [`law_each_chip_level_holds_a_chip_per_seat`], no seat adds more to a pot
/// than the pot's depth. Its chips are positive.
pub proof fn law_side_pots_are_layers(m: StateModel, s: Seq<u64>, prev: int)
    ensures
        forall|k: int| 0 <= k < layers_from(m, s, prev).len() ==> {
            &&& is_layer_above(m, prev, #[trigger] layers_from(m, s, prev)[k].0)
            &&& layers_from(m, s, prev)[k].0 > 0
        },
    decreases count_live_above(m, prev, NUM_PLAYERS as int),
{
    lemma_min_live_above(m, prev, NUM_PLAYERS as int);
    match min_live_above(m, prev, NUM_PLAYERS as int) {
        None => {},
        Some(l) => {
            let j = choose|j: int| 0 <= j < NUM_PLAYERS && live_above(m, prev, j) && m.bets[j] == l;
            lemma_count_above_drops(m, prev, l, j, NUM_PLAYERS as int);
            law_side_pots_are_layers(m, s, l);
            let chips = layer_chips(m, prev, l, NUM_PLAYERS as int);
            let best = best_strength(m, s, l, NUM_PLAYERS as int);
            let head = if chips > 0 && best is Some {
                seq![(chips, winners_below(m, s, l, best->0, NUM_PLAYERS as int))]
            } else {
                Seq::<(int, Seq<usize>)>::empty()
            };
            let tail = layers_from(m, s, l);
            assert(layers_from(m, s, prev) == head + tail);
            assert forall|k: int| 0 <= k < layers_from(m, s, prev).len() implies {
                &&& is_layer_above(m, prev, #[trigger] layers_from(m, s, prev)[k].0)
                &&& layers_from(m, s, prev)[k].0 > 0
            } by {
                if k < head.len() {
                    assert(layers_from(m, s, prev)[k] == head[k]);
                    assert(m.live(j) && m.bets[j] == l);
                    assert(chips == layer_chips(m, prev, l, NUM_PLAYERS as int));
                } else {
                    let e = tail[k - head.len()];
                    assert(layers_from(m, s, prev)[k] == e);
                    assert(is_layer_above(m, l, e.0));
                    let (a, b) = choose|a: int, b: int|
                        l <= a < b && e.0 == #[trigger] layer_chips(m, a, b, NUM_PLAYERS as int)
                            && exists|i: int| 0 <= i < NUM_PLAYERS && m.live(i) && m.bets[i] == b;
                    assert(prev <= a < b && e.0 == layer_chips(m, a, b, NUM_PLAYERS as int));
                }
            }
        },
    }
}

/// A showdown pays out every chip put in up to the largest bet of a seat
/// still in the hand; when no folded seat bet more than that, the side pots
/// together hold the whole pot.
pub proof fn law_side_pots_pay_out_the_pot(m: StateModel, s: Seq<u64>)
    requires
        forall|i: int| 0 <= i < NUM_PLAYERS ==> 0 <= #[trigger] m.bets[i],
    ensures
        layers_total(layers_from(m, s, 0)) == layer_chips(m, 0, top_live_bet(m, NUM_PLAYERS as int), NUM_PLAYERS as int),
        (forall|i: int| 0 <= i < NUM_PLAYERS ==> #[trigger] m.bets[i] <= top_live_bet(m, NUM_PLAYERS as int))
            ==> layers_total(layers_from(m, s, 0)) == m.pot(),
{
    lemma_top_live_bet(m, NUM_PLAYERS as int);
    lemma_layers_total(m, s, 0);
    let top = top_live_bet(m, NUM_PLAYERS as int);
    if forall|i: int| 0 <= i < NUM_PLAYERS ==> #[trigger] m.bets[i] <= top {
        lemma_layer_chips_is_sum(m, top, NUM_PLAYERS as int);
    }
}

proof fn lemma_layer_chips_is_sum(m: StateModel, top: int, n: int)
    requires
        0 <= n <= NUM_PLAYERS,
        forall|i: int| 0 <= i < NUM_PLAYERS ==> 0 <= #[trigger] m.bets[i],
        forall|i: int| 0 <= i < NUM_PLAYERS ==> #[trigger] m.bets[i] <= top,
    ensures
        layer_chips(m, 0, top, n) == prefix_sum(m.bets, n),
    decreases n,
{
    if n > 0 {
        lemma_layer_chips_is_sum(m, top, n - 1);
        assert(0 <= m.bets[n - 1] <= top);
    }
}

/// The chips won and lost by the seats below `n` when `winner` takes the pot.
pub open spec fn fold_results_below(m: StateModel, winner: int, n: int) -> int
    decreases n,
{
    if n <= 0 { 0 } else { fold_results_below(m, winner, n - 1) + fold_chip_result(m, winner, n - 1) }
}

proof fn lemma_fold_results(m: StateModel, winner: int, n: int)
    requires
        0 <= n <= NUM_PLAYERS,
    ensures
        fold_results_below(m, winner, n) == (if 0 <= winner < n { m.pot() } else { 0 }) - prefix_sum(m.bets, n),
    decreases n,
{
    if n > 0 {
        lemma_fold_results(m, winner, n - 1);
    }
}

/// A pot won uncontested is zero-sum: what the winner gains the others lose.
pub proof fn law_fold_payoffs_sum_to_zero(m: StateModel, winner: int)
    requires
        0 <= winner < NUM_PLAYERS,
    ensures
        fold_results_below(m, winner, NUM_PLAYERS as int) == 0,
{
    lemma_fold_results(m, winner, NUM_PLAYERS as int);
}

} // verus!
