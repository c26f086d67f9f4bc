use preflop::blueprint::{DecodeError, PreflopBlueprint, PreflopInfoKey, RegretEntry};
use preflop::config::PreflopBetConfig;

fn key(bucket: u8, history: &[u8]) -> PreflopInfoKey {
    PreflopInfoKey { bucket, history: history.to_vec() }
}

#[test]
fn new_blueprint_is_empty() {
    let bp = PreflopBlueprint::new(PreflopBetConfig::default());
    assert_eq!(bp.len(), 0);
    assert_eq!(bp.iterations, 0);
    assert!(bp.get(&key(12, &[])).is_none());
}

#[test]
fn get_or_create_makes_zeroed_entry_once() {
    let mut bp = PreflopBlueprint::new(PreflopBetConfig::default());
    let k = key(12, &[0, 1]);
    let i = bp.get_or_create(&k, 3);
    assert_eq!(bp.len(), 1);
    assert_eq!(bp.entries[i].1.n_actions, 3);
    assert_eq!(bp.entries[i].1.regrets, vec![0, 0, 0]);
    assert_eq!(bp.entries[i].1.cum_strategy, vec![0, 0, 0]);
    bp.entries[i].1.regrets[1] = 7;
    let j = bp.get_or_create(&k, 5);
    assert_eq!(i, j);
    assert_eq!(bp.len(), 1);
    assert_eq!(bp.get(&k).unwrap().regrets, vec![0, 7, 0]);
    let other = bp.get_or_create(&key(12, &[0]), 2);
    assert_ne!(other, i);
    assert_eq!(bp.len(), 2);
}

#[test]
fn regret_entry_new_is_zero() {
    let e = RegretEntry::new(4);
    assert_eq!(e.n_actions, 4);
    assert_eq!(e.regrets, vec![0; 4]);
    assert_eq!(e.cum_strategy, vec![0; 4]);
}

#[test]
fn info_keys_compare_by_content() {
    assert!(key(3, &[1, 2]).same_as(&key(3, &[1, 2])));
    assert!(!key(3, &[1, 2]).same_as(&key(3, &[1])));
    assert!(!key(3, &[1, 2]).same_as(&key(4, &[1, 2])));
    let d = key(9, &[4, 0]).duplicate();
    assert_eq!(d.bucket, 9);
    assert_eq!(d.history, vec![4, 0]);
}

#[test]
fn save_writes_the_documented_layout() {
    let mut bp = PreflopBlueprint::new(PreflopBetConfig::nl500());
    bp.iterations = 100;
    let i = bp.get_or_create(&key(12, &[1]), 2);
    bp.entries[i].1.regrets = vec![1.5f32.to_bits(), (-2.0f32).to_bits()];
    bp.entries[i].1.cum_strategy = vec![0.25f32.to_bits(), 4.0f32.to_bits()];
    let bytes = bp.save();
    let mut expected: Vec<u8> = vec![3, 1];
    expected.extend_from_slice(&5i32.to_le_bytes());
    expected.push(1);
    expected.extend_from_slice(&18i32.to_le_bytes());
    expected.push(1);
    expected.extend_from_slice(&44i32.to_le_bytes());
    expected.push(1); // sb_limp
    expected.extend_from_slice(&7i32.to_le_bytes());
    expected.push(1); // min_allin_depth
    expected.extend_from_slice(&100u64.to_le_bytes());
    expected.extend_from_slice(&1u64.to_le_bytes());
    expected.push(12);
    expected.extend_from_slice(&1u16.to_le_bytes());
    expected.push(1);
    expected.extend_from_slice(&2u16.to_le_bytes());
    expected.extend_from_slice(&1.5f32.to_le_bytes());
    expected.extend_from_slice(&(-2.0f32).to_le_bytes());
    expected.extend_from_slice(&0.25f32.to_le_bytes());
    expected.extend_from_slice(&4.0f32.to_le_bytes());
    assert_eq!(bytes, expected);
}

#[test]
fn serialize_roundtrip() {
    let mut bp = PreflopBlueprint::new(PreflopBetConfig::for_stack(20));
    bp.iterations = 100;
    for b in 0..5u8 {
        let i = bp.get_or_create(&key(b, &[0, b]), 3);
        bp.entries[i].1.regrets[0] = (b as f32 * 0.5).to_bits();
        bp.entries[i].1.cum_strategy[2] = 42;
    }
    let buf = bp.save();
    let loaded = PreflopBlueprint::load(buf.as_slice()).unwrap();
    assert_eq!(loaded.iterations, 100);
    assert_eq!(loaded.len(), bp.len());
    assert_eq!(loaded.config.raise_sizes, bp.config.raise_sizes);
    assert_eq!(loaded.config.sb_open_size, bp.config.sb_open_size);
    assert_eq!(loaded.config.min_allin_depth, bp.config.min_allin_depth);
    for (k, e) in bp.entries.iter() {
        let got = loaded.get(k).unwrap();
        assert_eq!(got.regrets, e.regrets);
        assert_eq!(got.cum_strategy, e.cum_strategy);
        assert_eq!(got.n_actions, e.n_actions);
    }
}

#[test]
fn load_ignores_trailing_bytes() {
    let bp = PreflopBlueprint::new(PreflopBetConfig::nl500());
    let mut buf = bp.save();
    buf.extend_from_slice(&[9, 9, 9]);
    let loaded = PreflopBlueprint::load(buf.as_slice()).unwrap();
    assert_eq!(loaded.len(), 0);
    assert_eq!(loaded.config.raise_sizes, vec![vec![5], vec![18], vec![44]]);
}

#[test]
fn load_of_truncated_bytes_fails() {
    let mut bp = PreflopBlueprint::new(PreflopBetConfig::nl500());
    bp.get_or_create(&key(1, &[2, 3]), 2);
    let buf = bp.save();
    for cut in 0..buf.len() {
        assert_eq!(PreflopBlueprint::load(&buf[..cut]).err(), Some(DecodeError::UnexpectedEof));
    }
    assert!(PreflopBlueprint::load(&[]).is_err());
}

#[test]
fn negative_open_size_reads_back_as_none() {
    let mut config = PreflopBetConfig::nl500();
    config.sb_open_size = None;
    let bp = PreflopBlueprint::new(config);
    let loaded = PreflopBlueprint::load(bp.save().as_slice()).unwrap();
    assert_eq!(loaded.config.sb_open_size, None);
    let mut config = PreflopBetConfig::nl500();
    config.sb_open_size = Some(-5);
    let bp = PreflopBlueprint::new(config);
    let loaded = PreflopBlueprint::load(bp.save().as_slice()).unwrap();
    assert_eq!(loaded.config.sb_open_size, None);
}

#[test]
fn later_entry_for_a_key_wins_on_load() {
    let mut bp = PreflopBlueprint::new(PreflopBetConfig::nl500());
    let i = bp.get_or_create(&key(1, &[]), 1);
    bp.entries[i].1.regrets[0] = 5;
    let j = bp.get_or_create(&key(2, &[]), 1);
    bp.entries[j].1.regrets[0] = 6;
    // Make the second entry a duplicate of the first key.
    bp.entries[j].0 = key(1, &[]);
    let loaded = PreflopBlueprint::load(bp.save().as_slice()).unwrap();
    assert_eq!(loaded.len(), 1);
    assert_eq!(loaded.get(&key(1, &[])).unwrap().regrets, vec![6]);
}
