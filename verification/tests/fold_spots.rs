use preflop::action::PreflopAction;
use preflop::config::PreflopBetConfig;
use preflop::spots::{build_state_from_folds, build_state_from_folds_generic};
use preflop::state::PreflopState;

#[test]
fn folds_to_each_seat() {
    let config = PreflopBetConfig::default();
    for pos in 0..6 {
        let s = build_state_from_folds(pos, &config);
        assert_eq!(s.to_act as usize, pos);
        for p in 0..pos {
            assert!(s.folded[p]);
        }
        for p in pos..6 {
            assert!(!s.folded[p]);
        }
    }
}

#[test]
fn folds_match_applying_fold_by_hand() {
    let config = PreflopBetConfig::default();
    let mut s = PreflopState::new_6max(config.clone());
    for _ in 0..3 {
        s = s.apply(PreflopAction::Fold);
    }
    let b = build_state_from_folds(3, &config);
    assert_eq!(b.folded, s.folded);
    assert_eq!(b.has_acted, s.has_acted);
    assert_eq!(b.to_act, s.to_act);
}

#[test]
fn generic_folds_start_at_first_active_seat() {
    let config = PreflopBetConfig::for_stack(20);
    let s = build_state_from_folds_generic(3, 3, 40, &config);
    assert_eq!(s.to_act, 3);
    assert_eq!(s.stacks, [0, 0, 0, 40, 39, 38]);
    let s = build_state_from_folds_generic(4, 3, 40, &config);
    assert_eq!(s.to_act, 4);
    assert!(s.folded[3]);
    let s = build_state_from_folds_generic(1, 3, 40, &config);
    assert_eq!(s.to_act, 3);
    let hu = build_state_from_folds_generic(4, 4, 30, &config);
    assert_eq!(hu.to_act, 4);
}
