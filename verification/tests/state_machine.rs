use preflop::action::{PreflopAction, PreflopNodeType};
use preflop::config::PreflopBetConfig;
use preflop::state::PreflopState;

#[test]
fn test_initial_state() {
    let state = PreflopState::new_6max(PreflopBetConfig::default());
    assert_eq!(state.to_act, 0); // UTG
    assert_eq!(state.bets[4], 1); // SB
    assert_eq!(state.bets[5], 2); // BB
    assert_eq!(state.stacks[4], 199);
    assert_eq!(state.stacks[5], 198);
    assert_eq!(state.stacks[0], 200);
    assert_eq!(state.active_count(), 6);
}

#[test]
fn test_utg_actions() {
    let state = PreflopState::new_6max(PreflopBetConfig::default());
    let actions = state.actions();
    // UTG: Fold, Raise(5) only. No Call (open-limp forbidden), no AllIn (min_allin_depth=1)
    assert_eq!(actions, vec![PreflopAction::Fold, PreflopAction::Raise(5)]);
}

#[test]
fn test_fold_to_bb() {
    let mut state = PreflopState::new_6max(PreflopBetConfig::default());
    for _ in 0..5 {
        state = state.apply(PreflopAction::Fold);
    }
    assert_eq!(state.active_count(), 1);
    assert!(matches!(state.node_type(), PreflopNodeType::TerminalFold(5)));
}

#[test]
fn test_limp_to_bb_option() {
    let mut state = PreflopState::new_6max(PreflopBetConfig::default());
    for _ in 0..4 {
        state = state.apply(PreflopAction::Fold);
    }
    state = state.apply(PreflopAction::Call);
    assert_eq!(state.to_act, 5);
    assert!(!state.is_closed());
    let actions = state.actions();
    assert!(actions.contains(&PreflopAction::Check));
}

#[test]
fn test_bb_check_terminal() {
    let mut state = PreflopState::new_6max(PreflopBetConfig::default());
    for _ in 0..4 {
        state = state.apply(PreflopAction::Fold);
    }
    state = state.apply(PreflopAction::Call);
    state = state.apply(PreflopAction::Check);
    assert!(matches!(state.node_type(), PreflopNodeType::TerminalShowdown));
}

#[test]
fn test_open_call_showdown() {
    let mut state = PreflopState::new_6max(PreflopBetConfig::default());
    state = state.apply(PreflopAction::Raise(5));
    for _ in 0..4 {
        state = state.apply(PreflopAction::Fold);
    }
    state = state.apply(PreflopAction::Call);
    assert!(matches!(state.node_type(), PreflopNodeType::TerminalShowdown));
}

#[test]
fn test_min_raise_rule() {
    let mut state = PreflopState::new_6max(PreflopBetConfig::default());
    state = state.apply(PreflopAction::Raise(5));
    let actions = state.actions();
    assert!(actions.contains(&PreflopAction::Fold));
    assert!(actions.contains(&PreflopAction::Call));
    assert!(actions.contains(&PreflopAction::Raise(18)));
    assert!(actions.contains(&PreflopAction::AllIn));
}

#[test]
fn side_pot_betting_sequence() {
    let mut config = PreflopBetConfig::default();
    config.min_allin_depth = 0;
    let mut state = PreflopState::new_6max(config);
    state.stacks[0] = 50;
    state = state.apply(PreflopAction::AllIn);
    assert_eq!(state.bets[0], 50);
    assert_eq!(state.stacks[0], 0);
    assert!(state.all_in[0]);
    for _ in 0..3 {
        state = state.apply(PreflopAction::Fold);
    }
    state = state.apply(PreflopAction::AllIn);
    assert_eq!(state.bets[4], 200);
    state = state.apply(PreflopAction::Call);
    assert_eq!(state.bets[5], 200);
    assert!(matches!(state.node_type(), PreflopNodeType::TerminalShowdown));
}

#[test]
fn open_shove_allowed_only_at_shallow_depth() {
    let deep = PreflopState::new_6max(PreflopBetConfig::default());
    assert!(!deep.actions().contains(&PreflopAction::AllIn));
    let shallow = PreflopState::new_6max(PreflopBetConfig::for_stack(10));
    assert!(shallow.actions().contains(&PreflopAction::AllIn));
}

#[test]
fn chips_are_conserved_by_every_action() {
    let mut state = PreflopState::new_6max(PreflopBetConfig::default());
    let start: Vec<i32> = (0..6).map(|i| state.stacks[i] + state.bets[i]).collect();
    let line = [
        PreflopAction::Raise(5),
        PreflopAction::Fold,
        PreflopAction::Raise(18),
        PreflopAction::Fold,
        PreflopAction::Fold,
        PreflopAction::Call,
    ];
    for a in line.iter() {
        assert!(state.actions().contains(a));
        state = state.apply(*a);
        for i in 0..6 {
            assert_eq!(state.stacks[i] + state.bets[i], start[i]);
        }
    }
}

#[test]
fn raise_sets_the_bet_to_its_total() {
    let mut state = PreflopState::new_6max(PreflopBetConfig::default());
    state = state.apply(PreflopAction::Raise(5));
    assert_eq!(state.max_bet(), 5);
    assert_eq!(state.bets[0], 5);
    assert_eq!(state.to_act, 1);
    state = state.apply(PreflopAction::Raise(18));
    assert_eq!(state.max_bet(), 18);
    assert_eq!(state.n_raises, 2);
    assert_eq!(state.last_raise_size, 13);
}

#[test]
fn min_raise_is_respected_by_every_offered_raise() {
    let mut state = PreflopState::new_6max(PreflopBetConfig::default());
    state = state.apply(PreflopAction::Raise(5));
    let max = state.max_bet();
    for a in state.actions() {
        if let PreflopAction::Raise(total) = a {
            assert!(total - max >= state.last_raise_size);
        }
    }
}

#[test]
fn first_seat_cannot_limp() {
    let state = PreflopState::new_6max(PreflopBetConfig::default());
    assert!(!state.actions().contains(&PreflopAction::Call));
    assert_eq!(state.actions()[0], PreflopAction::Fold);
}

#[test]
fn generic_start_matches_presets() {
    let six = PreflopState::new_generic(6, 200, PreflopBetConfig::default());
    let preset = PreflopState::new_6max(PreflopBetConfig::default());
    assert_eq!(six.stacks, preset.stacks);
    assert_eq!(six.bets, preset.bets);
    assert_eq!(six.folded, preset.folded);
    assert_eq!(six.to_act, preset.to_act);
    let hu = PreflopState::new_generic(2, 200, PreflopBetConfig::default());
    let hu_preset = PreflopState::new_heads_up(PreflopBetConfig::default());
    assert_eq!(hu.stacks, hu_preset.stacks);
    assert_eq!(hu.folded, hu_preset.folded);
    assert_eq!(hu.has_acted, hu_preset.has_acted);
    assert_eq!(hu.to_act, 4);
}

#[test]
fn generic_three_handed_start() {
    let s = PreflopState::new_generic(3, 40, PreflopBetConfig::for_stack(20));
    assert_eq!(s.stacks, [0, 0, 0, 40, 39, 38]);
    assert_eq!(s.folded, [true, true, true, false, false, false]);
    assert_eq!(s.to_act, 3);
    assert_eq!(s.active_count(), 3);
    assert_eq!(s.active_non_allin_count(), 3);
}

#[test]
fn heads_up_fold_wins_for_bb() {
    let mut s = PreflopState::new_heads_up(PreflopBetConfig::default());
    assert_eq!(s.to_act, 4);
    s = s.apply(PreflopAction::Fold);
    assert!(matches!(s.node_type(), PreflopNodeType::TerminalFold(5)));
}

#[test]
fn next_active_player_skips_folded_and_allin() {
    let mut s = PreflopState::new_6max(PreflopBetConfig::default());
    s.folded[1] = true;
    s.all_in[2] = true;
    assert_eq!(s.next_active_player(0), 3);
    assert_eq!(s.next_active_player(5), 0);
}

#[test]
fn decision_node_names_the_actor() {
    let s = PreflopState::new_6max(PreflopBetConfig::default());
    assert!(matches!(s.node_type(), PreflopNodeType::Decision(0)));
    assert_eq!(s.max_bet(), 2);
    assert!(!s.is_closed());
}

#[test]
fn action_labels() {
    assert_eq!(PreflopAction::Fold.label(), "fold");
    assert_eq!(PreflopAction::Check.label(), "check");
    assert_eq!(PreflopAction::Call.label(), "call");
    assert_eq!(PreflopAction::Raise(18).label(), "raise 18");
    assert_eq!(PreflopAction::Raise(-3).label(), "raise -3");
    assert_eq!(PreflopAction::AllIn.label(), "allin");
}

#[test]
fn stack_presets() {
    let c = PreflopBetConfig::for_stack(15);
    assert_eq!(c.raise_sizes, vec![vec![4]]);
    assert_eq!(c.sb_open_size, Some(5));
    assert_eq!(c.min_allin_depth, 0);
    let c = PreflopBetConfig::for_stack(25);
    assert_eq!(c.raise_sizes, vec![vec![5]]);
    assert_eq!(c.sb_open_size, Some(7));
    let c = PreflopBetConfig::for_stack(50);
    assert_eq!(c.raise_sizes, vec![vec![5], vec![16]]);
    assert_eq!(c.min_allin_depth, 1);
    let c = PreflopBetConfig::for_stack(100);
    assert_eq!(c.raise_sizes, PreflopBetConfig::nl500().raise_sizes);
    let n = PreflopBetConfig::nl500();
    assert_eq!(n.raise_sizes, vec![vec![5], vec![18], vec![44]]);
    assert!(n.sb_limp);
    assert_eq!(n.sb_open_size, Some(7));
    assert_eq!(n.min_allin_depth, 1);
}

#[test]
fn an_action_changes_only_the_acting_seat() {
    let s = PreflopState::new_6max(PreflopBetConfig::nl500());
    for a in s.actions() {
        let r = s.apply(a);
        for i in 1..6 {
            assert_eq!(r.stacks[i], s.stacks[i]);
            assert_eq!(r.bets[i], s.bets[i]);
            assert_eq!(r.folded[i], s.folded[i]);
            assert_eq!(r.all_in[i], s.all_in[i]);
        }
        assert_eq!(r.to_act, 1);
    }
    // Three-handed, the BTN folds: the turn skips nobody and goes to the SB.
    let s = PreflopState::new_generic(3, 200, PreflopBetConfig::nl500());
    assert_eq!(s.to_act, 3);
    let r = s.apply(PreflopAction::Fold);
    assert_eq!(r.to_act, 4);
    // The SB shoves and the BB folds: no seat can act, the turn stays with the BB.
    let r = r.apply(PreflopAction::AllIn).apply(PreflopAction::Fold);
    assert_eq!(r.to_act, 5);
}
