use preflop::sizes::PotFraction;
use preflop::solve_setup::{
    apply_street_sizes, batch_window, default_street_sizes, depth_limit_from_name, spot_file_name,
    street_depths, street_from_name, writes_html, PostflopStreet,
};

fn fr(num: i32, den: i32) -> PotFraction {
    PotFraction { num, den }
}

#[test]
fn street_names_ignore_case() {
    assert_eq!(street_from_name("flop"), Some(PostflopStreet::Flop));
    assert_eq!(street_from_name("FLOP"), Some(PostflopStreet::Flop));
    assert_eq!(street_from_name("Turn"), Some(PostflopStreet::Turn));
    assert_eq!(street_from_name("rIvEr"), Some(PostflopStreet::River));
    assert_eq!(street_from_name("preflop"), None);
    assert_eq!(street_from_name("flops"), None);
    assert_eq!(street_from_name(" flop"), None);
    assert_eq!(street_from_name(""), None);
}

#[test]
fn depth_limit_is_turn_or_river() {
    assert_eq!(depth_limit_from_name("TURN"), Some(PostflopStreet::Turn));
    assert_eq!(depth_limit_from_name("river"), Some(PostflopStreet::River));
    assert_eq!(depth_limit_from_name("flop"), None);
    assert_eq!(depth_limit_from_name("showdown"), None);
}

#[test]
fn board_card_counts() {
    assert_eq!(PostflopStreet::Flop.board_cards(), 3);
    assert_eq!(PostflopStreet::Turn.board_cards(), 4);
    assert_eq!(PostflopStreet::River.board_cards(), 5);
}

#[test]
fn street_depths_follow_the_options() {
    let all_bets = vec![fr(1, 3)];
    let all_raises = vec![fr(1, 1)];
    let none: Vec<PotFraction> = vec![];
    assert_eq!(street_depths(None, None, &all_bets, &all_raises), vec![vec![fr(1, 3)], vec![fr(1, 1)]]);
    assert_eq!(
        street_depths(Some("33,75"), None, &all_bets, &all_raises),
        vec![vec![fr(1, 3), fr(3, 4)], vec![fr(1, 1)]]
    );
    assert_eq!(street_depths(None, Some("50"), &none, &all_raises), vec![vec![], vec![fr(1, 2)]]);
    assert_eq!(street_depths(Some("x"), None, &all_bets, &none), Vec::<Vec<PotFraction>>::new());
    assert_eq!(street_depths(None, None, &all_bets, &none), vec![vec![fr(1, 3)]]);
}

#[test]
fn batch_sizes_replace_their_depths() {
    let bets = vec![fr(1, 2)];
    let raises = vec![fr(2, 1)];
    let none: Vec<PotFraction> = vec![];

    let mut d: Vec<Vec<PotFraction>> = vec![];
    apply_street_sizes(&mut d, &bets, &raises);
    assert_eq!(d, vec![vec![fr(1, 2)], vec![fr(2, 1)]]);

    let mut d = vec![vec![fr(1, 3)]];
    apply_street_sizes(&mut d, &none, &raises);
    assert_eq!(d, vec![vec![fr(1, 3)], vec![fr(2, 1)]]);

    let mut d: Vec<Vec<PotFraction>> = vec![];
    apply_street_sizes(&mut d, &none, &raises);
    assert_eq!(d, vec![vec![], vec![fr(2, 1)]]);

    let mut d = vec![vec![fr(1, 3)], vec![fr(1, 1)], vec![fr(3, 1)]];
    apply_street_sizes(&mut d, &bets, &none);
    assert_eq!(d, vec![vec![fr(1, 2)], vec![fr(1, 1)], vec![fr(3, 1)]]);

    let mut d = vec![vec![fr(1, 3)]];
    apply_street_sizes(&mut d, &none, &none);
    assert_eq!(d, vec![vec![fr(1, 3)]]);
}

#[test]
fn default_sizes_of_a_batch() {
    assert_eq!(
        default_street_sizes(),
        vec![vec![fr(33, 100), fr(2, 3), fr(5, 4)], vec![fr(1, 2), fr(1, 1)]]
    );
}

#[test]
fn batch_windows() {
    assert_eq!(batch_window(10, 3, 0), (3, 10));
    assert_eq!(batch_window(10, 3, 4), (3, 7));
    assert_eq!(batch_window(10, 8, 5), (8, 10));
    assert_eq!(batch_window(10, 12, 5), (10, 10));
    assert_eq!(batch_window(0, 0, 0), (0, 0));
}

#[test]
fn spot_file_names() {
    assert_eq!(spot_file_name("BTN vs BB", "AsKd7h"), "BTN_vs_BB_AsKd7h.json");
    assert_eq!(spot_file_name("CO", "2c2d2h"), "CO_2c2d2h.json");
    assert_eq!(spot_file_name("a  b", ""), "a__b_.json");
}

#[test]
fn output_format_choice() {
    assert!(writes_html(Some("html"), "out.json"));
    assert!(!writes_html(Some("json"), "out.html"));
    assert!(writes_html(None, "out.htm"));
    assert!(writes_html(Some("csv"), "out.html"));
    assert!(!writes_html(None, "out.json"));
    assert!(!writes_html(Some("HTML"), "out.json"));
}
