use preflop::action::PreflopAction;
use preflop::blueprint::PreflopBlueprint;
use preflop::config::PreflopBetConfig;
use preflop::state::PreflopState;
use preflop::tree::tree_nodes;

fn bp() -> PreflopBlueprint {
    PreflopBlueprint::new(PreflopBetConfig::nl500())
}

/// Replays action indices from `root`.
fn replay(root: &PreflopState, history: &[u8]) -> PreflopState {
    let mut s = root.clone();
    for &h in history {
        let acts = s.actions();
        s = s.apply(acts[h as usize]);
    }
    s
}

#[test]
fn rfi_plans_fold_to_each_seat() {
    let plans = bp().chart_plans();
    let names: Vec<&str> = plans.iter().map(|p| p.spot_name.as_str()).collect();
    assert_eq!(names, vec!["UTG RFI", "HJ RFI", "CO RFI", "BTN RFI", "SB RFI"]);
    for (k, p) in plans.iter().enumerate() {
        assert_eq!(p.history, vec![0u8; k]);
        assert_eq!(p.state.to_act as usize, k);
    }
}

#[test]
fn facing_open_plans_cover_every_pair() {
    let plans = bp().facing_open_plans();
    assert_eq!(plans.len(), 15);
    assert_eq!(plans[0].spot_name, "HJ facing UTG open");
    assert_eq!(plans[0].history, vec![1]);
    assert_eq!(plans[4].spot_name, "BB facing UTG open");
    assert_eq!(plans[4].history, vec![1, 0, 0, 0, 0]);
    let last = plans.last().unwrap();
    assert_eq!(last.spot_name, "BB facing SB open");
    assert_eq!(last.history, vec![0, 0, 0, 0, 2]);
    assert_eq!(last.state.to_act, 5);
    assert_eq!(last.state.bets[4], 7);
}

#[test]
fn facing_3bet_and_4bet_plans() {
    let b = bp();
    let three = b.facing_3bet_plans();
    assert_eq!(three.len(), 10);
    assert_eq!(three[0].spot_name, "UTG facing BTN 3bet");
    assert_eq!(three[0].history, vec![1, 0, 0, 2, 0, 0]);
    assert_eq!(three[0].state.to_act, 0);
    assert_eq!(three[0].state.max_bet(), 18);
    let four = b.facing_4bet_plans();
    assert_eq!(four.len(), 5);
    assert_eq!(four[0].spot_name, "BTN facing CO 4bet+");
    assert_eq!(four[0].history, vec![0, 0, 1, 2, 0, 0, 2]);
    assert_eq!(four[0].state.to_act, 3);
    assert_eq!(four[0].state.max_bet(), 44);
    let all = b.all_chart_plans();
    assert_eq!(all.len(), 5 + 15 + 10 + 5);
}

#[test]
fn chart_histories_replay_to_their_states() {
    let b = bp();
    let root = PreflopState::new_6max(b.config.clone());
    for p in b.all_chart_plans() {
        let s = replay(&root, &p.history);
        assert_eq!(s.to_act, p.state.to_act, "{}", p.spot_name);
        assert_eq!(s.bets, p.state.bets, "{}", p.spot_name);
        assert_eq!(s.folded, p.state.folded, "{}", p.spot_name);
    }
}

#[test]
fn generic_chart_plans_three_handed() {
    let b = PreflopBlueprint::new(PreflopBetConfig::for_stack(40));
    let plans = b.all_chart_plans_generic(3, 80);
    let names: Vec<&str> = plans.iter().map(|p| p.spot_name.as_str()).collect();
    assert_eq!(
        names,
        vec![
            "BTN RFI",
            "SB RFI",
            "SB facing BTN open",
            "BB facing BTN open",
            "BB facing SB open",
            "BTN facing SB 3bet",
            "BTN facing BB 3bet",
            "SB facing BB 3bet",
        ]
    );
    assert_eq!(plans[0].history, Vec::<u8>::new());
    assert_eq!(plans[1].history, vec![0]);
}

#[test]
fn generic_six_handed_matches_six_max_spots() {
    let b = bp();
    let generic = b.all_chart_plans_generic(6, 200);
    let six = b.all_chart_plans();
    assert!(generic.len() >= six.len());
    for p in six.iter() {
        let g = generic.iter().find(|q| q.spot_name == p.spot_name).unwrap();
        assert_eq!(g.history, p.history);
    }
}

#[test]
fn single_raised_matchups() {
    let m = bp().matchup_plans();
    assert_eq!(m.len(), 15);
    assert_eq!(m[0].matchup, "UTG vs HJ");
    assert_eq!(m[0].pot_chips, 13);
    assert_eq!(m[0].eff_stack_chips, 195);
    assert_eq!(m[0].opener.position, "UTG");
    assert_eq!(m[0].caller.position, "HJ");
    assert_eq!(m[0].opener.steps.len(), 1);
    assert_eq!(m[0].opener.steps[0].history, Vec::<u8>::new());
    assert_eq!(m[0].opener.steps[0].action_idx, 1);
    assert_eq!(m[0].caller.steps[0].history, vec![1]);
    assert_eq!(m[0].caller.steps[0].action_idx, 1);
    assert_eq!(m[14].matchup, "SB vs BB");
    assert_eq!(m[14].pot_chips, 14);
}

#[test]
fn three_and_four_bet_matchups() {
    let b = bp();
    let three = b.three_bet_matchup_plans();
    assert_eq!(three.len(), 10);
    assert_eq!(three[0].matchup, "UTG open vs BTN 3bet");
    assert_eq!(three[0].pot_chips, 39);
    assert_eq!(three[0].eff_stack_chips, 182);
    assert_eq!(three[0].opener.steps[1].history, vec![1, 0, 0, 2, 0, 0]);
    assert_eq!(three[0].opener.steps[1].action_idx, 1);
    assert_eq!(three[0].caller.steps[0].history, vec![1, 0, 0]);
    assert_eq!(three[0].caller.steps[0].action_idx, 2);
    let four = b.four_bet_matchup_plans();
    assert_eq!(four.len(), 5);
    assert_eq!(four[0].matchup, "CO 4bet vs BTN call");
    assert_eq!(four[0].pot_chips, 91);
    assert_eq!(four[0].eff_stack_chips, 156);
    assert_eq!(four[0].caller.steps[1].history, vec![0, 0, 1, 2, 0, 0, 2]);
    assert_eq!(b.all_matchup_plans().len(), 30);
}

#[test]
fn generic_matchups_heads_up() {
    let b = PreflopBlueprint::new(PreflopBetConfig::nl500());
    let m = b.all_matchup_plans_generic(2, 200);
    let names: Vec<&str> = m.iter().map(|x| x.matchup.as_str()).collect();
    assert_eq!(names, vec!["SB vs BB", "SB open vs BB 3bet", "SB 4bet vs BB call"]);
    assert_eq!(m[0].pot_chips, 14);
}

#[test]
fn tree_starts_at_the_first_seat_and_follows_each_action() {
    let config = PreflopBetConfig::nl500();
    let nodes = tree_nodes(&config, 2, 200, 2);
    assert_eq!(nodes[0].spot_name, "SB RFI");
    assert_eq!(nodes[0].position, "SB");
    assert_eq!(nodes[0].position_idx, 4);
    assert_eq!(nodes[0].line, "");
    assert_eq!(nodes[0].available_actions, vec!["fold", "call", "raise 7"]);
    assert_eq!(nodes[1].spot_name, "BB | SB limp");
    assert_eq!(nodes[1].history, vec![1]);
    assert_eq!(nodes[1].available_actions, vec!["check", "raise 5"]);
    assert!(nodes.iter().any(|n| n.spot_name == "SB | SB limp > BB raise"));
    assert!(nodes.iter().any(|n| n.spot_name == "BB | SB open"));
}

#[test]
fn tree_six_max_contains_documented_spots() {
    let config = PreflopBetConfig::nl500();
    let nodes = tree_nodes(&config, 6, 200, 2);
    assert_eq!(nodes[0].spot_name, "UTG RFI");
    for name in ["CO | UTG open > HJ call", "BB | SB limp", "UTG | UTG open > BTN 3bet"].iter() {
        assert!(nodes.iter().any(|n| n.spot_name == *name), "{}", name);
    }
    let node = nodes.iter().find(|n| n.spot_name == "CO | UTG open > HJ call").unwrap();
    assert_eq!(node.line, "UTG open > HJ call");
    assert_eq!(node.position_idx, 2);
}

#[test]
fn tree_histories_replay_to_their_nodes() {
    let config = PreflopBetConfig::nl500();
    let root = PreflopState::new_generic(3, 200, config.clone());
    let nodes = tree_nodes(&config, 3, 200, 3);
    assert!(nodes.len() > 10);
    for n in nodes.iter() {
        let s = replay(&root, &n.history);
        assert_eq!(s.to_act as usize, n.position_idx);
        assert_eq!(s.actions(), n.actions);
        assert!(s.n_raises <= 3);
    }
    let mut seen = std::collections::HashSet::new();
    for n in nodes.iter() {
        assert!(seen.insert(n.history.clone()));
    }
}

#[test]
fn tree_respects_raise_cap() {
    let config = PreflopBetConfig::nl500();
    let capped = tree_nodes(&config, 2, 200, 1);
    let root = PreflopState::new_heads_up(config.clone());
    for n in capped.iter() {
        assert!(replay(&root, &n.history).n_raises <= 1);
    }
    assert!(tree_nodes(&config, 2, 200, 0).iter().all(|n| !n.line.contains("open")));
    let _ = PreflopAction::Fold;
}

#[test]
fn tree_with_stacks_too_short_for_the_blinds() {
    let config = PreflopBetConfig::nl500();
    for stack in [1, -5].iter() {
        let nodes = tree_nodes(&config, 2, *stack, 3);
        assert_eq!(nodes.len(), 2);
        assert_eq!(nodes[0].position_idx, 4);
        assert_eq!(nodes[0].actions, vec![PreflopAction::Fold, PreflopAction::AllIn]);
        assert_eq!(nodes[1].position_idx, 5);
        assert_eq!(nodes[1].history, vec![1]);
        assert_eq!(nodes[1].actions, vec![PreflopAction::Check]);
    }
    let root = PreflopState::new_generic(6, 0, config.clone());
    let nodes = tree_nodes(&config, 6, 0, 3);
    assert!(nodes.len() > 6);
    for n in nodes.iter() {
        let s = replay(&root, &n.history);
        assert_eq!(s.to_act as usize, n.position_idx);
        assert_eq!(s.actions(), n.actions);
        assert!(n
            .actions
            .iter()
            .all(|a| matches!(a, PreflopAction::Fold | PreflopAction::Check | PreflopAction::AllIn)));
    }
}

#[test]
fn only_rfi_charts_and_no_matchups_without_a_raise() {
    let b = bp();
    let names = |players: usize, stack: i32| -> Vec<String> {
        b.all_chart_plans_generic(players, stack).iter().map(|p| p.spot_name.clone()).collect()
    };
    assert_eq!(names(3, 1), vec!["BTN RFI", "SB RFI"]);
    assert_eq!(names(2, 0), vec!["SB RFI"]);
    assert_eq!(names(6, -100), vec!["UTG RFI", "HJ RFI", "CO RFI", "BTN RFI", "SB RFI"]);
    for (players, stack) in [(3usize, 1i32), (2, 0), (6, -100)].iter() {
        assert!(b.all_matchup_plans_generic(*players, *stack).is_empty());
    }
}

#[test]
fn tree_without_a_raise_limit() {
    let config = PreflopBetConfig::nl500();
    let unlimited = tree_nodes(&config, 3, 200, 255);
    let deep = tree_nodes(&config, 3, 200, 20);
    assert_eq!(unlimited.len(), deep.len());
    for (a, b) in unlimited.iter().zip(deep.iter()) {
        assert_eq!(a.history, b.history);
    }
}

#[test]
fn matchups_with_deep_heads_up_stacks() {
    let b = bp();
    let m = b.all_matchup_plans_generic(2, 1_000_000_000);
    let names: Vec<&str> = m.iter().map(|x| x.matchup.as_str()).collect();
    assert_eq!(names[0], "SB vs BB");
    assert!(m.iter().all(|x| x.pot_chips > 0 && x.eff_stack_chips > 0));
}
