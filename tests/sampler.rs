use any4::generator::generate_pool_map;
use any4::pools::{DifficultyPools, InputDifficulty, PoolEntry, PoolMap};
use any4::rational::Rational;
use any4::sampler::{get_set_of_inputs, remove_inputs_without_matching_difficulties, SetConfig, TargetValidator};

fn pools(easy: Vec<Vec<i32>>, moderate: Vec<Vec<i32>>, hard: Vec<Vec<i32>>) -> DifficultyPools {
    DifficultyPools { easy, moderate, hard }
}

fn all_tiers() -> Vec<InputDifficulty> {
    vec![InputDifficulty::Easy, InputDifficulty::Moderate, InputDifficulty::Hard]
}

#[test]
fn fixed_target_absent_is_an_error() {
    let map = generate_pool_map(1, 3, 2);
    let config = SetConfig::new(1, Some(Rational::from_int(1000)), None, all_tiers());
    assert!(get_set_of_inputs(map, &config).is_err());
}

#[test]
fn zero_boards_always_succeed() {
    let map = PoolMap { entries: Vec::new() };
    let config = SetConfig::new(0, Some(Rational::from_int(5)), None, Vec::new());
    assert_eq!(get_set_of_inputs(map, &config).unwrap().len(), 0);
}

#[test]
fn empty_tier_falls_back_to_nearest() {
    let entry = PoolEntry {
        target: Rational::from_int(10),
        pools: pools(Vec::new(), vec![vec![2, 5]], vec![vec![1, 10]]),
    };
    let map = PoolMap { entries: vec![entry] };
    let config = SetConfig::new(2, Some(Rational::from_int(10)), None, vec![InputDifficulty::Easy, InputDifficulty::Moderate]);
    let boards = get_set_of_inputs(map, &config).unwrap();
    assert_eq!(boards.len(), 2);
    assert_eq!(boards[0].difficulty, InputDifficulty::Moderate);
    assert_eq!(boards[0].input, vec![2, 5]);
    assert_eq!(boards[1].difficulty, InputDifficulty::Hard);
    assert_eq!(boards[1].input, vec![1, 10]);
}

#[test]
fn fixed_target_runs_out() {
    let entry = PoolEntry { target: Rational::from_int(10), pools: pools(vec![vec![5, 5]], Vec::new(), Vec::new()) };
    let map = PoolMap { entries: vec![entry] };
    let config = SetConfig::new(2, Some(Rational::from_int(10)), None, all_tiers());
    assert!(get_set_of_inputs(map, &config).is_err());
}

#[test]
fn kept_entries_are_unchanged_and_in_order() {
    let a = PoolEntry { target: Rational::from_int(1), pools: pools(vec![vec![1, 1]], Vec::new(), vec![vec![2, 2], vec![3, 3]]) };
    let b = PoolEntry { target: Rational::from_int(2), pools: pools(vec![vec![1, 2]], Vec::new(), Vec::new()) };
    let c = PoolEntry { target: Rational::from_int(5), pools: pools(Vec::new(), Vec::new(), vec![vec![2, 3]]) };
    let map = PoolMap { entries: vec![a, b, c] };
    let kept = remove_inputs_without_matching_difficulties(map, &vec![InputDifficulty::Hard]);
    assert_eq!(kept.entries.len(), 2);
    assert!(kept.entries[0].target.same_value(&Rational::from_int(1)));
    assert_eq!(kept.entries[0].pools.hard, vec![vec![2, 2], vec![3, 3]]);
    assert_eq!(kept.entries[0].pools.easy, vec![vec![1, 1]]);
    assert!(kept.entries[1].target.same_value(&Rational::from_int(5)));
}

#[test]
fn unrequested_targets_are_dropped() {
    let a = PoolEntry { target: Rational::from_int(1), pools: pools(vec![vec![1, 1]], Vec::new(), Vec::new()) };
    let b = PoolEntry { target: Rational::from_int(2), pools: pools(Vec::new(), Vec::new(), vec![vec![1, 2]]) };
    let map = PoolMap { entries: vec![a, b] };
    let kept = remove_inputs_without_matching_difficulties(map, &vec![InputDifficulty::Hard]);
    assert_eq!(kept.entries.len(), 1);
    assert!(kept.entries[0].target.same_value(&Rational::from_int(2)));
}

#[test]
fn boards_never_repeat_an_input_for_a_target() {
    let map = generate_pool_map(1, 4, 2);
    let config = SetConfig::new(20, None, None, all_tiers());
    let boards = get_set_of_inputs(map, &config).unwrap();
    assert_eq!(boards.len(), 20);
    for (a, x) in boards.iter().enumerate() {
        for y in boards.iter().skip(a + 1) {
            assert!(!(x.target.same_value(&y.target) && x.input == y.input));
        }
    }
}

#[test]
fn open_target_respects_validator() {
    let map = generate_pool_map(1, 4, 2);
    let config = SetConfig::new(10, None, Some(TargetValidator::PositiveInteger), all_tiers());
    let boards = get_set_of_inputs(map, &config).unwrap();
    assert_eq!(boards.len(), 10);
    for b in boards.iter() {
        assert_eq!(b.target.num % b.target.den, 0);
        assert!(!b.target.neg || b.target.num == 0);
    }
}

#[test]
fn open_target_runs_out() {
    let a = PoolEntry { target: rat_half(), pools: pools(vec![vec![1, 2]], Vec::new(), Vec::new()) };
    let b = PoolEntry { target: Rational::from_int(3), pools: pools(vec![vec![1, 2]], Vec::new(), Vec::new()) };
    let map = PoolMap { entries: vec![a, b] };
    let config = SetConfig::new(2, None, Some(TargetValidator::Integer), all_tiers());
    assert!(get_set_of_inputs(map, &config).is_err());
}

fn rat_half() -> Rational {
    Rational { neg: false, num: 1, den: 2 }
}

#[test]
fn closest_populated_pool() {
    let p = pools(Vec::new(), Vec::new(), vec![vec![1]]);
    assert_eq!(p.get_closest_matching_populated_pool(InputDifficulty::Easy).unwrap(), InputDifficulty::Hard);
    let p = pools(vec![vec![1]], Vec::new(), vec![vec![1]]);
    assert_eq!(p.get_closest_matching_populated_pool(InputDifficulty::Moderate).unwrap(), InputDifficulty::Easy);
    let p = pools(vec![vec![1]], vec![vec![2]], Vec::new());
    assert_eq!(p.get_closest_matching_populated_pool(InputDifficulty::Hard).unwrap(), InputDifficulty::Moderate);
    let p = pools(Vec::new(), Vec::new(), Vec::new());
    assert!(p.get_closest_matching_populated_pool(InputDifficulty::Hard).is_err());
}
