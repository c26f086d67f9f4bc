use preflop::action::PreflopAction;
use preflop::filename::parse_blueprint_filename;
use preflop::fraction::{gcd, simplify_frac};
use preflop::labels::{action_label, build_label, position_name, ActionRecord};
use preflop::pushfold::{facing_description, position_names};
use preflop::text::{decimal_string, parse_i32_at, parse_usize_at};

fn rec(position: usize, action: PreflopAction, raise_depth: u8) -> ActionRecord {
    ActionRecord { position, action, raise_depth }
}

#[test]
fn seat_names() {
    let names: Vec<&str> = (0..6).map(position_name).collect();
    assert_eq!(names, vec!["UTG", "HJ", "CO", "BTN", "SB", "BB"]);
}

#[test]
fn action_words() {
    assert_eq!(action_label(&PreflopAction::Fold, 0, &[]), "fold");
    assert_eq!(action_label(&PreflopAction::Check, 0, &[]), "check");
    assert_eq!(action_label(&PreflopAction::Call, 0, &[]), "limp");
    assert_eq!(action_label(&PreflopAction::Call, 1, &[]), "call");
    assert_eq!(action_label(&PreflopAction::Raise(5), 0, &[]), "open");
    let limp = [rec(4, PreflopAction::Call, 0)];
    assert_eq!(action_label(&PreflopAction::Raise(8), 0, &limp), "raise");
    assert_eq!(action_label(&PreflopAction::Raise(18), 1, &[]), "3bet");
    assert_eq!(action_label(&PreflopAction::Raise(44), 2, &[]), "4bet");
    assert_eq!(action_label(&PreflopAction::Raise(90), 3, &[]), "4bet");
    assert_eq!(action_label(&PreflopAction::Raise(120), 4, &[]), "5bet");
    assert_eq!(action_label(&PreflopAction::Raise(190), 9, &[]), "10bet");
    assert_eq!(action_label(&PreflopAction::AllIn, 0, &[]), "shove");
    assert_eq!(action_label(&PreflopAction::AllIn, 2, &[]), "allin");
}

#[test]
fn labels_of_lines() {
    assert_eq!(build_label(0, &[]), ("UTG RFI".to_string(), String::new()));
    let folds = [rec(0, PreflopAction::Fold, 0), rec(1, PreflopAction::Fold, 0)];
    assert_eq!(build_label(2, &folds), ("CO RFI".to_string(), String::new()));
    let limp = [
        rec(0, PreflopAction::Fold, 0),
        rec(1, PreflopAction::Fold, 0),
        rec(2, PreflopAction::Fold, 0),
        rec(3, PreflopAction::Fold, 0),
        rec(4, PreflopAction::Call, 0),
    ];
    assert_eq!(build_label(5, &limp), ("BB | SB limp".to_string(), "SB limp".to_string()));
    let line = [
        rec(0, PreflopAction::Raise(5), 0),
        rec(1, PreflopAction::Call, 1),
    ];
    assert_eq!(
        build_label(2, &line),
        ("CO | UTG open > HJ call".to_string(), "UTG open > HJ call".to_string())
    );
    let three = [
        rec(0, PreflopAction::Raise(5), 0),
        rec(1, PreflopAction::Fold, 1),
        rec(2, PreflopAction::Raise(18), 1),
        rec(3, PreflopAction::Fold, 2),
    ];
    assert_eq!(build_label(0, &three).0, "UTG | UTG open > CO 3bet");
}

#[test]
fn decimals() {
    assert_eq!(decimal_string(0), "0");
    assert_eq!(decimal_string(7), "7");
    assert_eq!(decimal_string(1234), "1234");
    assert_eq!(decimal_string(-56), "-56");
    assert_eq!(decimal_string(i64::MIN), i64::MIN.to_string());
    assert_eq!(decimal_string(i64::MAX), i64::MAX.to_string());
}

#[test]
fn integer_text_reads_like_std_parse() {
    let cases = ["6", "+6", "-6", "", "+", "-", "06", "1x", "4294967296", "2147483647", "2147483648",
        "-2147483648", "-2147483649", " 5", "18446744073709551615", "18446744073709551616"];
    for c in cases.iter() {
        let chars: Vec<char> = c.chars().collect();
        assert_eq!(parse_usize_at(&chars, 0, chars.len()), c.parse::<usize>().ok(), "usize {:?}", c);
        assert_eq!(parse_i32_at(&chars, 0, chars.len()), c.parse::<i32>().ok(), "i32 {:?}", c);
    }
}

#[test]
fn gcd_values() {
    assert_eq!(gcd(0, 0), 0);
    assert_eq!(gcd(0, 7), 7);
    assert_eq!(gcd(12, 0), 12);
    assert_eq!(gcd(33, 100), 1);
    assert_eq!(gcd(75, 100), 25);
    assert_eq!(gcd(150, 100), 50);
    assert_eq!(gcd(u32::MAX, 3), 3);
}

#[test]
fn simplified_fractions() {
    assert_eq!(simplify_frac(33, 100), (33, 100));
    assert_eq!(simplify_frac(75, 100), (3, 4));
    assert_eq!(simplify_frac(150, 100), (3, 2));
    assert_eq!(simplify_frac(-50, 100), (-1, 2));
    assert_eq!(simplify_frac(50, -100), (1, -2));
    assert_eq!(simplify_frac(0, 5), (0, 1));
    assert_eq!(simplify_frac(i32::MIN, 2), (-1073741824, 1));
    assert_eq!(simplify_frac(i32::MIN, 0), (1, 0));
    assert_eq!(simplify_frac(i32::MIN, i32::MIN), (1, 1));
}

#[test]
fn blueprint_file_names() {
    assert_eq!(parse_blueprint_filename("preflop_6p_100bb.bin"), Some((6, 100)));
    assert_eq!(parse_blueprint_filename("preflop_2p_15bb.bin"), Some((2, 15)));
    assert_eq!(parse_blueprint_filename("preflop_+3p_+40bb.bin"), Some((3, 40)));
    assert_eq!(parse_blueprint_filename("preflop_06p_020bb.bin"), Some((6, 20)));
    assert_eq!(parse_blueprint_filename("preflop_7p_100bb.bin"), None);
    assert_eq!(parse_blueprint_filename("preflop_1p_100bb.bin"), None);
    assert_eq!(parse_blueprint_filename("preflop_6p_0bb.bin"), None);
    assert_eq!(parse_blueprint_filename("preflop_6p_-5bb.bin"), None);
    assert_eq!(parse_blueprint_filename("preflop_6p_100bb.json"), None);
    assert_eq!(parse_blueprint_filename("preflop_6p_100_bb.bin"), None);
    assert_eq!(parse_blueprint_filename("preflop_6_100bb.bin"), None);
    assert_eq!(parse_blueprint_filename("preflop_6p_100b.bin"), None);
    assert_eq!(parse_blueprint_filename("flop_6p_100bb.bin"), None);
    assert_eq!(parse_blueprint_filename("preflop_6p_99999999999bb.bin"), None);
    assert_eq!(parse_blueprint_filename(""), None);
}

#[test]
fn push_fold_seat_names() {
    assert_eq!(position_names(2).to_vec(), vec!["SB", "BB"]);
    assert_eq!(position_names(3).to_vec(), vec!["BTN", "SB", "BB"]);
    assert_eq!(position_names(4).to_vec(), vec!["CO", "BTN", "SB", "BB"]);
}

#[test]
fn facing_descriptions() {
    let names = position_names(4);
    assert_eq!(facing_description(0, names, 2), "no action");
    assert_eq!(facing_description(0b1000, names, 2), "all fold");
    assert_eq!(facing_description(0b0001, names, 2), "CO push");
    assert_eq!(facing_description(0b0011, names, 2), "CO+BTN push");
    assert_eq!(facing_description(0b0101, names, 3), "CO+SB push");
    assert_eq!(facing_description(0b0110, names, 3), "BTN+SB push");
}
