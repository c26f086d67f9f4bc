use preflop::action::PreflopAction;
use preflop::config::PreflopBetConfig;
use preflop::filename::parse_blueprint_filename;
use preflop::naming::blueprint_filename;
use preflop::positions::{heads_up_positions, postflop_rank_of};
use preflop::sizes::{parse_size_list, PotFraction};
use preflop::state::PreflopState;

fn fr(num: i32, den: i32) -> PotFraction {
    PotFraction { num, den }
}

#[test]
fn size_lists_are_reduced_fractions() {
    assert_eq!(parse_size_list(Some("33,75,150")), vec![fr(1, 3), fr(3, 4), fr(3, 2)]);
    assert_eq!(
        parse_size_list(Some("67,133,166,167,34,233,1,99")),
        vec![fr(2, 3), fr(4, 3), fr(83, 50), fr(5, 3), fr(17, 50), fr(7, 3), fr(1, 100), fr(99, 100)]
    );
    assert_eq!(parse_size_list(None), vec![]);
    assert_eq!(parse_size_list(Some(" 50 , x, -5, 0, 200")), vec![fr(1, 2), fr(2, 1)]);
    assert_eq!(parse_size_list(Some("25,,100")), vec![fr(1, 4), fr(1, 1)]);
    assert_eq!(parse_size_list(Some("\u{3000}40\t")), vec![fr(2, 5)]);
    assert_eq!(parse_size_list(Some("+60")), vec![fr(3, 5)]);
    assert_eq!(parse_size_list(Some("")), vec![]);
    assert_eq!(parse_size_list(None), vec![]);
    assert_eq!(parse_size_list(Some("2147483647")), vec![fr(2147483647, 100)]);
    assert_eq!(parse_size_list(Some("2147483648")), vec![]);
}

#[test]
fn blueprint_names_read_back() {
    for np in 2..=6usize {
        for sbb in [1, 15, 100, 2147483647].iter() {
            let name = blueprint_filename(np, *sbb);
            assert_eq!(name, format!("preflop_{}p_{}bb.bin", np, sbb));
            assert_eq!(parse_blueprint_filename(&name), Some((np, *sbb)));
        }
    }
    assert_eq!(parse_blueprint_filename(&blueprint_filename(7, 100)), None);
    assert_eq!(parse_blueprint_filename(&blueprint_filename(3, -4)), None);
}

#[test]
fn postflop_ranks() {
    let ranks: Vec<usize> = (0..6).map(postflop_rank_of).collect();
    assert_eq!(ranks, vec![2, 3, 4, 5, 0, 1]);
}

#[test]
fn heads_up_position_pairs() {
    let mut s = PreflopState::new_6max(PreflopBetConfig::default());
    assert_eq!(heads_up_positions(&s), None);
    // UTG opens, everyone folds but the BB.
    s = s.apply(PreflopAction::Raise(5));
    for _ in 0..4 {
        s = s.apply(PreflopAction::Fold);
    }
    assert_eq!(heads_up_positions(&s), Some((0, 5, 1)));
    // SB against BB: the BB is in position.
    let hu = PreflopState::new_heads_up(PreflopBetConfig::default());
    assert_eq!(heads_up_positions(&hu), Some((5, 4, 1)));
    // BTN against SB.
    let mut t = PreflopState::new_6max(PreflopBetConfig::default());
    t.folded = [true, true, true, false, false, true];
    assert_eq!(heads_up_positions(&t), Some((3, 4, 5)));
}

fn showdown_payoffs(state: &PreflopState, strengths: &[u64; 6]) -> [f32; 6] {
    let mut payoffs = [0.0f32; 6];
    for layer in state.side_pots(strengths) {
        let share = layer.chips as f32 / layer.winners.len() as f32;
        for &w in &layer.winners {
            payoffs[w] += share;
        }
    }
    for i in 0..6 {
        payoffs[i] -= state.bets[i] as f32;
    }
    payoffs
}

#[test]
fn side_pots_of_a_three_way_all_in() {
    let mut config = PreflopBetConfig::default();
    config.min_allin_depth = 0;
    let mut state = PreflopState::new_6max(config);
    state.stacks[0] = 50;
    state = state.apply(PreflopAction::AllIn);
    for _ in 0..3 {
        state = state.apply(PreflopAction::Fold);
    }
    state = state.apply(PreflopAction::AllIn);
    state = state.apply(PreflopAction::Call);
    // UTG holds the best hand, then SB, then BB.
    let strengths = [30, 0, 0, 0, 20, 10];
    let layers = state.side_pots(&strengths);
    assert_eq!(layers.len(), 2);
    assert_eq!(layers[0].chips, 150);
    assert_eq!(layers[0].winners, vec![0]);
    assert_eq!(layers[1].chips, 300);
    assert_eq!(layers[1].winners, vec![4]);
    let p = showdown_payoffs(&state, &strengths);
    assert_eq!(p[0], 100.0);
    assert_eq!(p[4], 100.0);
    assert_eq!(p[5], -200.0);
}

#[test]
fn side_pot_of_a_limped_pot_and_a_split() {
    let mut state = PreflopState::new_6max(PreflopBetConfig::default());
    for _ in 0..4 {
        state = state.apply(PreflopAction::Fold);
    }
    state = state.apply(PreflopAction::Call);
    state = state.apply(PreflopAction::Check);
    let layers = state.side_pots(&[0, 0, 0, 0, 9, 3]);
    assert_eq!(layers.len(), 1);
    assert_eq!(layers[0].chips, 4);
    assert_eq!(layers[0].winners, vec![4]);
    let p = showdown_payoffs(&state, &[0, 0, 0, 0, 9, 3]);
    assert_eq!(p[4], 2.0);
    assert_eq!(p[5], -2.0);
    let split = state.side_pots(&[0, 0, 0, 0, 5, 5]);
    assert_eq!(split[0].winners, vec![4, 5]);
}

#[test]
fn fold_payoffs_in_chips() {
    let mut state = PreflopState::new_6max(PreflopBetConfig::default());
    state = state.apply(PreflopAction::Raise(5));
    for _ in 0..5 {
        state = state.apply(PreflopAction::Fold);
    }
    let p = state.payoff_fold_chips(0);
    assert_eq!(p[0], 3);
    assert_eq!(p[4], -1);
    assert_eq!(p[5], -2);
    assert_eq!(p.iter().sum::<i32>(), 0);
}
