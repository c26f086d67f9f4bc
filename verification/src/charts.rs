//! The spots whose strategies make up the preflop charts: each spot is a
//! name, the action indices that reach it (the blueprint key) and the state
//! there. Reading the strategies themselves is left to the caller.

use vstd::prelude::*;
use crate::config::PreflopBetConfig;
use crate::state::{PreflopState, StateModel, NUM_PLAYERS, six_max_start, generic_start};
use crate::labels::{position_name, seat_name};
use crate::lines::{
    Line, LineModel, fold_line, take_action, first_raise_from, reach_seat, first_raise_index,
    lemma_first_index_range,
};
use crate::laws::{sound, law_generic_start_is_wf, law_generic_start_is_sound, law_generic_start_matches_presets};
use crate::blueprint::PreflopBlueprint;

verus! {

/// A chart spot: its name, the action indices that reach it, and the state there.
pub struct SpotPlan {
    pub spot_name: String,
    pub history: Vec<u8>,
    pub state: PreflopState,
}

pub struct SpotPlanModel {
    pub spot_name: Seq<char>,
    pub history: Seq<u8>,
    pub state: StateModel,
}

impl View for SpotPlan {
    type V = SpotPlanModel;

    open spec fn view(&self) -> SpotPlanModel {
        SpotPlanModel { spot_name: self.spot_name@, history: self.history@, state: self.state@ }
    }
}

/// The views of a list of spots.
pub open spec fn plan_views(v: Seq<SpotPlan>) -> Seq<SpotPlanModel> {
    v.map_values(|p: SpotPlan| p@)
}

pub open spec fn plan_of(name: Seq<char>, l: LineModel) -> SpotPlanModel {
    SpotPlanModel { spot_name: name, history: l.history, state: l.state }
}

/// The line at the start of the hand.
pub open spec fn root_line(root: StateModel) -> LineModel {
    LineModel { history: Seq::empty(), state: root }
}

/// `l` after the seat to act makes its first listed raise (`None` when it has none).
pub open spec fn raise_on(l: LineModel) -> Option<LineModel> {
    match first_raise_from(l.state.actions(), 0) {
        Some(i) => Some(take_action(l, i)),
        None => None,
    }
}

/// The seats from `first` up to `o` fold, then `o` opens with its first listed raise.
pub open spec fn open_line(root: StateModel, first: int, o: int) -> Option<LineModel> {
    raise_on(fold_line(root_line(root), (o - first) as nat))
}

/// After the open of `o`, the seats up to `d` fold.
pub open spec fn facing_open_line(root: StateModel, first: int, o: int, d: int) -> Option<LineModel> {
    match open_line(root, first, o) {
        Some(l) => Some(fold_line(l, (d - o - 1) as nat)),
        None => None,
    }
}

/// After the open of `o`, `b` 3-bets with its first listed raise and the
/// table folds round to `o`.
pub open spec fn facing_3bet_line(root: StateModel, first: int, o: int, b: int, guarded: bool) -> Option<LineModel> {
    match facing_open_line(root, first, o, b) {
        Some(l) => match raise_on(l) {
            Some(l2) => reach_seat(l2, o, guarded),
            None => None,
        },
        None => None,
    }
}

/// After `b` 3-bets, `o` 4-bets with its first listed raise and the table
/// folds round to `b`.
pub open spec fn facing_4bet_line(root: StateModel, first: int, o: int, b: int, guarded: bool) -> Option<LineModel> {
    match facing_3bet_line(root, first, o, b, guarded) {
        Some(l) => match raise_on(l) {
            Some(l2) => reach_seat(l2, b, guarded),
            None => None,
        },
        None => None,
    }
}

/// The chart spot of the given kind (1: facing an open, 2: facing a 3-bet,
/// 3: facing a 4-bet) for opener `o` and the other seat `d`.
#[verifier::opaque]
pub open spec fn chart_spot(root: StateModel, first: int, kind: int, guarded: bool, o: int, d: int) -> Option<SpotPlanModel> {
    if kind == 1 {
        match facing_open_line(root, first, o, d) {
            Some(l) => Some(plan_of(seat_name(d) + " facing "@ + seat_name(o) + " open"@, l)),
            None => None,
        }
    } else if kind == 2 {
        match facing_3bet_line(root, first, o, d, guarded) {
            Some(l) => Some(plan_of(seat_name(o) + " facing "@ + seat_name(d) + " 3bet"@, l)),
            None => None,
        }
    } else {
        match facing_4bet_line(root, first, o, d, guarded) {
            Some(l) => Some(plan_of(seat_name(d) + " facing "@ + seat_name(o) + " 4bet+"@, l)),
            None => None,
        }
    }
}

pub open spec fn opt_seq<A>(o: Option<A>) -> Seq<A> {
    match o {
        Some(x) => seq![x],
        None => Seq::empty(),
    }
}

/// The open-raise spots of the seats from `first` below `n`, but the BB:
/// "{seat} RFI" after the seats before it fold.
pub open spec fn rfi_spots(root: StateModel, first: int, n: int) -> Seq<SpotPlanModel>
    decreases n - first,
{
    if n <= first {
        Seq::empty()
    } else {
        rfi_spots(root, first, n - 1) + if n - 1 < 5 {
            seq![plan_of(seat_name(n - 1) + " RFI"@, fold_line(root_line(root), (n - 1 - first) as nat))]
        } else {
            Seq::empty()
        }
    }
}

/// The spots of one kind for every pair `(o, d)` with `first <= o < d`, `o`
/// not the BB, in order of `o` then `d`, taking the pairs `o * 6 + d` below `n`.
pub open spec fn all_pairs_spots(root: StateModel, first: int, kind: int, guarded: bool, n: int) -> Seq<SpotPlanModel>
    decreases n,
{
    if n <= 0 {
        Seq::empty()
    } else {
        let o = (n - 1) / 6;
        let d = (n - 1) % 6;
        all_pairs_spots(root, first, kind, guarded, n - 1) + if first <= o < 5 && o < d {
            opt_seq(chart_spot(root, first, kind, guarded, o, d))
        } else {
            Seq::empty()
        }
    }
}

/// The spots of one kind for the first `n` pairs of `pairs`.
pub open spec fn listed_spots(root: StateModel, kind: int, pairs: Seq<(int, int)>, n: int) -> Seq<SpotPlanModel>
    decreases n,
{
    if n <= 0 {
        Seq::empty()
    } else {
        listed_spots(root, kind, pairs, n - 1) + opt_seq(chart_spot(root, 0, kind, false, pairs[n - 1].0, pairs[n - 1].1))
    }
}

/// The 6-max (opener, 3-bettor) pairs charted facing a 3-bet.
pub open spec fn three_bet_pairs() -> Seq<(int, int)> {
    seq![(0, 3), (0, 5), (1, 2), (1, 3), (1, 5), (2, 3), (2, 5), (3, 4), (3, 5), (4, 5)]
}

/// The 6-max (opener, 3-bettor) pairs charted facing a 4-bet.
pub open spec fn four_bet_pairs() -> Seq<(int, int)> {
    seq![(2, 3), (3, 5), (1, 3), (0, 5), (4, 5)]
}

fn spot_name_for(kind: u8, o: usize, d: usize) -> (r: String)
    requires
        o < NUM_PLAYERS,
        d < NUM_PLAYERS,
    ensures
        kind == 1 ==> r@ == seat_name(d as int) + " facing "@ + seat_name(o as int) + " open"@,
        kind == 2 ==> r@ == seat_name(o as int) + " facing "@ + seat_name(d as int) + " 3bet"@,
        kind != 1 && kind != 2 ==> r@ == seat_name(d as int) + " facing "@ + seat_name(o as int) + " 4bet+"@,
{
    if kind == 1 {
        String::from_str(position_name(d)).concat(" facing ").concat(position_name(o)).concat(" open")
    } else if kind == 2 {
        String::from_str(position_name(o)).concat(" facing ").concat(position_name(d)).concat(" 3bet")
    } else {
        String::from_str(position_name(d)).concat(" facing ").concat(position_name(o)).concat(" 4bet+")
    }
}

/// `line` after the seat to act makes its first listed raise; `false`, and
/// the line left as it was, when it has none.
fn raise_first(line: &mut Line) -> (r: bool)
    requires
        sound(old(line)@.state),
        old(line)@.state.n_raises < u8::MAX,
    ensures
        match raise_on(old(line)@) {
            Some(l) => r && final(line)@ == l,
            None => !r,
        },
        sound(final(line)@.state),
        final(line)@.state.n_raises <= old(line)@.state.n_raises + 1,
        final(line)@.state.config == old(line)@.state.config,
{
    let acts = line.state.actions();
    proof { lemma_first_index_range(acts@); }
    match first_raise_index(&acts) {
        Some(i) => {
            line.take(&acts, i);
            true
        },
        None => false,
    }
}

/// The chart spot of the given kind for opener `o` and the other seat `d`.
fn chart_spot_at(root: &PreflopState, first: usize, kind: u8, guarded: bool, o: usize, d: usize) -> (r: Option<SpotPlan>)
    requires
        sound(root@),
        root@.n_raises == 0,
        first <= o < 5,
        o < d < NUM_PLAYERS,
        1 <= kind <= 3,
    ensures
        match chart_spot(root@, first as int, kind as int, guarded, o as int, d as int) {
            Some(p) => r matches Some(x) && x@ == p,
            None => r is None,
        },
{
    proof { reveal(chart_spot); }
    let mut line = Line::start(root.clone());
    line.fold_times(o - first);
    if !raise_first(&mut line) {
        return None;
    }
    line.fold_times(d - o - 1);
    if kind >= 2 {
        if !raise_first(&mut line) {
            return None;
        }
        if !line.fold_round_to(o, guarded) {
            return None;
        }
        if kind == 3 {
            if !raise_first(&mut line) {
                return None;
            }
            if !line.fold_round_to(d, guarded) {
                return None;
            }
        }
    }
    let name = spot_name_for(kind, o, d);
    Some(SpotPlan { spot_name: name, history: line.history, state: line.state })
}

/// The open-raise spots of the seats from `first` on, but the BB.
fn rfi_plans(root: &PreflopState, first: usize) -> (r: Vec<SpotPlan>)
    requires
        sound(root@),
        first < NUM_PLAYERS,
    ensures
        plan_views(r@) == rfi_spots(root@, first as int, NUM_PLAYERS as int),
{
    let mut out: Vec<SpotPlan> = Vec::new();
    let mut pos: usize = first;
    assert(plan_views(out@) =~= rfi_spots(root@, first as int, first as int));
    while pos < NUM_PLAYERS
        invariant
            sound(root@),
            first <= pos <= NUM_PLAYERS,
            plan_views(out@) == rfi_spots(root@, first as int, pos as int),
        decreases NUM_PLAYERS - pos,
    {
        if pos < 5 {
            let mut line = Line::start(root.clone());
            line.fold_times(pos - first);
            let name = String::from_str(position_name(pos)).concat(" RFI");
            let ghost before = plan_views(out@);
            out.push(SpotPlan { spot_name: name, history: line.history, state: line.state });
            assert(plan_views(out@) =~= before + seq![plan_of(seat_name(pos as int) + " RFI"@, fold_line(root_line(root@), (pos - first) as nat))]);
        } else {
            assert(plan_views(out@) =~= rfi_spots(root@, first as int, pos + 1));
        }
        pos += 1;
    }
    out
}

/// The spots of one kind for every pair `first <= o < d`, `o` not the BB.
fn all_pairs_plans(root: &PreflopState, first: usize, kind: u8, guarded: bool) -> (r: Vec<SpotPlan>)
    requires
        sound(root@),
        root@.n_raises == 0,
        first < NUM_PLAYERS,
        1 <= kind <= 3,
    ensures
        plan_views(r@) == all_pairs_spots(root@, first as int, kind as int, guarded, 36),
{
    let mut out: Vec<SpotPlan> = Vec::new();
    let mut o: usize = 0;
    assert(plan_views(out@) =~= all_pairs_spots(root@, first as int, kind as int, guarded, 0));
    while o < NUM_PLAYERS
        invariant
            sound(root@),
            root@.n_raises == 0,
            first < NUM_PLAYERS,
            1 <= kind <= 3,
            o <= NUM_PLAYERS,
            plan_views(out@) == all_pairs_spots(root@, first as int, kind as int, guarded, (o * 6) as int),
        decreases NUM_PLAYERS - o,
    {
        let mut d: usize = 0;
        while d < NUM_PLAYERS
            invariant
                sound(root@),
                root@.n_raises == 0,
                first < NUM_PLAYERS,
                1 <= kind <= 3,
                o < NUM_PLAYERS,
                d <= NUM_PLAYERS,
                plan_views(out@) == all_pairs_spots(root@, first as int, kind as int, guarded, (o * 6 + d) as int),
            decreases NUM_PLAYERS - d,
        {
            let ghost n = (o * 6 + d) as int;
            assert((n + 1 - 1) / 6 == o && (n + 1 - 1) % 6 == d);
            let ghost before = plan_views(out@);
            if first <= o && o < 5 && o < d {
                match chart_spot_at(root, first, kind, guarded, o, d) {
                    Some(p) => {
                        out.push(p);
                        assert(plan_views(out@) =~= before + seq![p@]);
                    },
                    None => {},
                }
            }
            assert(plan_views(out@) =~= all_pairs_spots(root@, first as int, kind as int, guarded, n + 1));
            d += 1;
        }
        o += 1;
    }
    out
}

/// The spots of one kind for a list of 6-max (opener, other seat) pairs.
fn listed_plans(root: &PreflopState, kind: u8, pairs: &Vec<(usize, usize)>, ghost_pairs: Ghost<Seq<(int, int)>>) -> (r: Vec<SpotPlan>)
    requires
        sound(root@),
        root@.n_raises == 0,
        1 <= kind <= 3,
        pairs@.len() == ghost_pairs@.len(),
        forall|i: int| 0 <= i < pairs@.len() ==> #[trigger] pairs@[i].0 == ghost_pairs@[i].0 && pairs@[i].1 == ghost_pairs@[i].1,
        forall|i: int| 0 <= i < pairs@.len() ==> #[trigger] pairs@[i].0 < 5 && pairs@[i].0 < pairs@[i].1 < NUM_PLAYERS,
    ensures
        plan_views(r@) == listed_spots(root@, kind as int, ghost_pairs@, pairs@.len() as int),
{
    let mut out: Vec<SpotPlan> = Vec::new();
    let mut i: usize = 0;
    assert(plan_views(out@) =~= listed_spots(root@, kind as int, ghost_pairs@, 0));
    while i < pairs.len()
        invariant
            sound(root@),
            root@.n_raises == 0,
            1 <= kind <= 3,
            i <= pairs@.len(),
            pairs@.len() == ghost_pairs@.len(),
            forall|j: int| 0 <= j < pairs@.len() ==> #[trigger] pairs@[j].0 == ghost_pairs@[j].0 && pairs@[j].1 == ghost_pairs@[j].1,
            forall|j: int| 0 <= j < pairs@.len() ==> #[trigger] pairs@[j].0 < 5 && pairs@[j].0 < pairs@[j].1 < NUM_PLAYERS,
            plan_views(out@) == listed_spots(root@, kind as int, ghost_pairs@, i as int),
        decreases pairs.len() - i,
    {
        let (o, d) = pairs[i];
        let ghost before = plan_views(out@);
        match chart_spot_at(root, 0, kind, false, o, d) {
            Some(p) => {
                out.push(p);
                assert(plan_views(out@) =~= before + seq![p@]);
            },
            None => {},
        }
        assert(plan_views(out@) =~= listed_spots(root@, kind as int, ghost_pairs@, i + 1));
        i += 1;
    }
    out
}

fn append_plans(out: &mut Vec<SpotPlan>, more: Vec<SpotPlan>)
    ensures
        plan_views(final(out)@) == plan_views(old(out)@) + plan_views(more@),
{
    let ghost start = out@;
    let mut more = more;
    let ghost m = more@;
    out.append(&mut more);
    assert(plan_views(out@) =~= plan_views(start) + plan_views(m));
}

/// The 6-max open-raise spots UTG to SB.
pub open spec fn six_max_rfi_spots(root: StateModel) -> Seq<SpotPlanModel> {
    rfi_spots(root, 0, NUM_PLAYERS as int)
}

/// Every 6-max chart spot: open raises, facing an open, the listed spots
/// facing a 3-bet and facing a 4-bet.
pub open spec fn six_max_chart_spots(root: StateModel) -> Seq<SpotPlanModel> {
    six_max_rfi_spots(root) + all_pairs_spots(root, 0, 1, false, 36) + listed_spots(root, 2, three_bet_pairs(), 10)
        + listed_spots(root, 3, four_bet_pairs(), 5)
}

/// Every chart spot of a hand whose seats from `first` on play: open raises,
/// facing an open, and, when the configuration has sizes for them, facing a
/// 3-bet and facing a 4-bet for every (opener, 3-bettor) pair.
pub open spec fn generic_chart_spots(root: StateModel, first: int) -> Seq<SpotPlanModel> {
    rfi_spots(root, first, NUM_PLAYERS as int) + all_pairs_spots(root, first, 1, true, 36)
        + (if root.config.raise_sizes.len() >= 2 { all_pairs_spots(root, first, 2, true, 36) } else { Seq::empty() })
        + (if root.config.raise_sizes.len() >= 3 { all_pairs_spots(root, first, 3, true, 36) } else { Seq::empty() })
}

fn six_max_root(config: &PreflopBetConfig) -> (r: PreflopState)
    ensures
        r@ == six_max_start(config@),
        sound(r@),
{
    proof {
        law_generic_start_matches_presets(config@);
        law_generic_start_is_wf(6, 200, config@);
    }
    PreflopState::new_6max(config.clone())
}

fn three_bet_pair_list() -> (r: Vec<(usize, usize)>)
    ensures
        r@.len() == three_bet_pairs().len(),
        forall|i: int| 0 <= i < r@.len() ==> #[trigger] r@[i].0 == three_bet_pairs()[i].0 && r@[i].1 == three_bet_pairs()[i].1,
        forall|i: int| 0 <= i < r@.len() ==> #[trigger] r@[i].0 < 5 && r@[i].0 < r@[i].1 < NUM_PLAYERS,
{
    let r: Vec<(usize, usize)> = vec![(0, 3), (0, 5), (1, 2), (1, 3), (1, 5), (2, 3), (2, 5), (3, 4), (3, 5), (4, 5)];
    r
}

fn four_bet_pair_list() -> (r: Vec<(usize, usize)>)
    ensures
        r@.len() == four_bet_pairs().len(),
        forall|i: int| 0 <= i < r@.len() ==> #[trigger] r@[i].0 == four_bet_pairs()[i].0 && r@[i].1 == four_bet_pairs()[i].1,
        forall|i: int| 0 <= i < r@.len() ==> #[trigger] r@[i].0 < 5 && r@[i].0 < r@[i].1 < NUM_PLAYERS,
{
    let r: Vec<(usize, usize)> = vec![(2, 3), (3, 5), (1, 3), (0, 5), (4, 5)];
    r
}

impl PreflopBlueprint {
    /// The 6-max open-raise spots, UTG to SB: "{seat} RFI", reached when the
    /// seats before fold.
    pub fn chart_plans(&self) -> (r: Vec<SpotPlan>)
        ensures
            plan_views(r@) == six_max_rfi_spots(six_max_start(self@.config)),
    {
        let root = six_max_root(&self.config);
        rfi_plans(&root, 0)
    }

    /// The 6-max spots facing an open: for every opener UTG to SB and every
    /// later seat, "{seat} facing {opener} open", reached when the seats
    /// before the opener fold, the opener makes its first listed raise and
    /// the seats in between fold. Openers without a raise are skipped.
    pub fn facing_open_plans(&self) -> (r: Vec<SpotPlan>)
        ensures
            plan_views(r@) == all_pairs_spots(six_max_start(self@.config), 0, 1, false, 36),
    {
        let root = six_max_root(&self.config);
        all_pairs_plans(&root, 0, 1, false)
    }

    /// The listed 6-max spots facing a 3-bet: "{opener} facing {3-bettor}
    /// 3bet", after the open, the 3-bettor's first listed raise and folds
    /// round to the opener.
    pub fn facing_3bet_plans(&self) -> (r: Vec<SpotPlan>)
        ensures
            plan_views(r@) == listed_spots(six_max_start(self@.config), 2, three_bet_pairs(), 10),
    {
        let root = six_max_root(&self.config);
        let pairs = three_bet_pair_list();
        listed_plans(&root, 2, &pairs, Ghost(three_bet_pairs()))
    }

    /// The listed 6-max spots facing a 4-bet: "{3-bettor} facing {opener}
    /// 4bet+", after the 3-bet, the opener's first listed raise and folds
    /// round to the 3-bettor.
    pub fn facing_4bet_plans(&self) -> (r: Vec<SpotPlan>)
        ensures
            plan_views(r@) == listed_spots(six_max_start(self@.config), 3, four_bet_pairs(), 5),
    {
        let root = six_max_root(&self.config);
        let pairs = four_bet_pair_list();
        listed_plans(&root, 3, &pairs, Ghost(four_bet_pairs()))
    }

    /// Every 6-max chart spot, in the order open raises, facing an open,
    /// facing a 3-bet, facing a 4-bet.
    pub fn all_chart_plans(&self) -> (r: Vec<SpotPlan>)
        ensures
            plan_views(r@) == six_max_chart_spots(six_max_start(self@.config)),
    {
        let mut out = self.chart_plans();
        append_plans(&mut out, self.facing_open_plans());
        append_plans(&mut out, self.facing_3bet_plans());
        append_plans(&mut out, self.facing_4bet_plans());
        out
    }

    /// Every chart spot of a hand of `num_players` players (2 to 6) with
    /// `stack_chips` chips each: the open raises of every seat but the BB,
    /// every spot facing an open, and, when the configuration has 3-bet
    /// (4-bet) sizes, every spot facing a 3-bet (4-bet). A spot is skipped
    /// when a seat on its line has no raise or the table runs out of seats
    /// before the turn comes back.
    pub fn all_chart_plans_generic(&self, num_players: usize, stack_chips: i32) -> (r: Vec<SpotPlan>)
        requires
            2 <= num_players <= NUM_PLAYERS,
            stack_chips >= i32::MIN + 2,
        ensures
            plan_views(r@) == generic_chart_spots(
                generic_start(num_players as int, stack_chips as int, self@.config),
                NUM_PLAYERS - num_players,
            ),
    {
        let first = NUM_PLAYERS - num_players;
        let root = PreflopState::new_generic(num_players, stack_chips, self.config.clone());
        proof { law_generic_start_is_sound(num_players as int, stack_chips as int, self@.config); }
        let mut out = rfi_plans(&root, first);
        append_plans(&mut out, all_pairs_plans(&root, first, 1, true));
        if self.config.raise_sizes.len() >= 2 {
            append_plans(&mut out, all_pairs_plans(&root, first, 2, true));
        }
        if self.config.raise_sizes.len() >= 3 {
            append_plans(&mut out, all_pairs_plans(&root, first, 3, true));
        }
        out
    }
}

} // verus!
