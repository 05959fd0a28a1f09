use destiny::{pick_combination, possible_rolls, roll_complexity, DiceError, RollInfo};
use itertools::Itertools;
use std::collections::BTreeMap;

fn counts(values: &[u64]) -> BTreeMap<u64, usize> {
    let mut found = BTreeMap::new();
    for value in values {
        *found.entry(*value).or_insert(0) += 1;
    }
    found
}

#[test]
fn test_complexity_1() {
    assert_eq!(roll_complexity("2d6"), Ok(36));
}

#[test]
fn test_complexity_2() {
    assert_eq!(roll_complexity("2d6 + 2d6"), Ok(1296));
}

#[test]
fn test_complexity_3() {
    assert_eq!(roll_complexity("1d20 + 3d6"), Ok(4320));
}

#[test]
fn test_complexity_4() {
    assert_eq!(roll_complexity("8d10"), Ok(100_000_000));
}

#[test]
fn complexity_of_special_strings() {
    assert_eq!(roll_complexity("3 + 4"), Ok(1));
    assert_eq!(roll_complexity(""), Ok(1));
    assert_eq!(roll_complexity("1d1"), Ok(1));
    assert_eq!(roll_complexity("18446744073709551615d1 + 2d3"), Ok(9));
    assert_eq!(roll_complexity("1d18446744073709551615"), Ok(u64::MAX));
    assert_eq!(roll_complexity("63d2"), Ok(1 << 63));
    assert_eq!(roll_complexity("32d2 * 31d2"), Ok(1 << 63));
    assert_eq!(roll_complexity("1da4 + asdf"), Ok(1));
}

#[test]
fn complexity_reports_overflow() {
    assert_eq!(roll_complexity("64d2"), Err(DiceError::ComplexityOverflow));
    assert_eq!(roll_complexity("32d2 * 32d2"), Err(DiceError::ComplexityOverflow));
    assert_eq!(roll_complexity("2d4294967296"), Err(DiceError::ComplexityOverflow));
    assert_eq!(roll_complexity("1d18446744073709551616"), Err(DiceError::ComplexityOverflow));
    assert_eq!(roll_complexity("99999999999999999999d1"), Err(DiceError::ComplexityOverflow));
    assert_eq!(roll_complexity("20d10"), Err(DiceError::ComplexityOverflow));
    assert_eq!(roll_complexity("19d10"), Ok(10_000_000_000_000_000_000));
}

#[test]
fn complexity_rejects_degenerate_groups() {
    assert_eq!(roll_complexity("0d6"), Err(DiceError::DegenerateDiceGroup));
    assert_eq!(roll_complexity("6d0"), Err(DiceError::DegenerateDiceGroup));
    assert_eq!(roll_complexity("2d6 + 0d0"), Err(DiceError::DegenerateDiceGroup));
    assert_eq!(roll_complexity("64d2 + 0d6"), Err(DiceError::DegenerateDiceGroup));
}

#[test]
fn number_of_falls_of_one_group() {
    assert_eq!(RollInfo { num: 2, size: 6 }.num_possible_rolls(), Ok(36));
    assert_eq!(RollInfo { num: 8, size: 10 }.num_possible_rolls(), Ok(100_000_000));
    assert_eq!(RollInfo { num: 1, size: u64::MAX }.num_possible_rolls(), Ok(u64::MAX));
    assert_eq!(RollInfo { num: u64::MAX, size: 1 }.num_possible_rolls(), Ok(1));
    assert_eq!(RollInfo { num: 2, size: 4294967295 }.num_possible_rolls(), Ok(18446744065119617025));
    assert_eq!(RollInfo { num: 2, size: 4294967296 }.num_possible_rolls(), Err(DiceError::ComplexityOverflow));
    assert_eq!(RollInfo { num: u64::MAX, size: 2 }.num_possible_rolls(), Err(DiceError::ComplexityOverflow));
    assert_eq!(RollInfo { num: 0, size: 2 }.num_possible_rolls(), Err(DiceError::DegenerateDiceGroup));
    assert_eq!(RollInfo { num: 2, size: 0 }.num_possible_rolls(), Err(DiceError::DegenerateDiceGroup));
}

#[test]
fn one_die_gives_each_face_once() {
    assert_eq!(RollInfo { num: 1, size: 6 }.roll_values(), Ok(vec![1, 2, 3, 4, 5, 6]));
}

#[test]
fn two_dice_of_four_faces() {
    let sums = RollInfo { num: 2, size: 4 }.roll_values().unwrap();
    assert_eq!(sums, vec![2, 3, 4, 5, 3, 4, 5, 6, 4, 5, 6, 7, 5, 6, 7, 8]);
    assert_eq!(sums.len(), 16);
    let expected: BTreeMap<u64, usize> =
        [(2, 1), (3, 2), (4, 3), (5, 4), (6, 3), (7, 2), (8, 1)].into_iter().collect();
    assert_eq!(counts(&sums), expected);
}

#[test]
fn totals_of_special_groups() {
    assert_eq!(RollInfo { num: 1, size: 1 }.roll_values(), Ok(vec![1]));
    assert_eq!(RollInfo { num: 5, size: 1 }.roll_values(), Ok(vec![5]));
    assert_eq!(RollInfo { num: u64::MAX, size: 1 }.roll_values(), Ok(vec![u64::MAX]));
    assert_eq!(RollInfo { num: 3, size: 2 }.roll_values(), Ok(vec![3, 4, 4, 5, 4, 5, 5, 6]));
    assert_eq!(RollInfo { num: 0, size: 6 }.roll_values(), Err(DiceError::DegenerateDiceGroup));
    assert_eq!(RollInfo { num: 6, size: 0 }.roll_values(), Err(DiceError::DegenerateDiceGroup));
    assert_eq!(RollInfo { num: 64, size: 2 }.roll_values(), Err(DiceError::ComplexityOverflow));
    assert_eq!(RollInfo { num: 2, size: u64::MAX }.roll_values(), Err(DiceError::ComplexityOverflow));
}

#[test]
fn totals_agree_with_the_product_of_the_ranges() {
    for (num, size) in [(1u64, 1u64), (1, 6), (2, 4), (3, 3), (2, 6), (4, 2), (3, 6), (5, 3), (1, 20), (6, 2)] {
        let ranges = (0..num).map(|_| 1..(size + 1));
        let expected: Vec<u64> = ranges.multi_cartesian_product().map(|faces| faces.iter().sum()).collect();
        assert_eq!(RollInfo { num, size }.roll_values(), Ok(expected), "{}d{}", num, size);
    }
}

#[test]
fn combinations_count_like_a_mileage_counter() {
    let tables = vec![vec![1, 2], vec![10, 20, 30]];
    let found: Vec<Vec<u64>> = (0..6).map(|k| pick_combination(&tables, k)).collect();
    assert_eq!(
        found,
        vec![vec![1, 10], vec![1, 20], vec![1, 30], vec![2, 10], vec![2, 20], vec![2, 30]]
    );
    assert_eq!(pick_combination(&vec![], 0), Vec::<u64>::new());
    assert_eq!(pick_combination(&vec![vec![7]], 0), vec![7]);
    let three = vec![vec![1, 2], vec![3], vec![4, 5, 6], vec![7, 8]];
    let expected: Vec<Vec<u64>> = three.iter().map(|table| table.clone()).multi_cartesian_product().collect();
    let found: Vec<Vec<u64>> = (0..12).map(|k| pick_combination(&three, k)).collect();
    assert_eq!(found, expected);
}

#[test]
fn outcomes_of_one_group() {
    assert_eq!(possible_rolls("1d6"), Ok(vec![1, 2, 3, 4, 5, 6]));
    assert_eq!(possible_rolls("1d4 + 2"), Ok(vec![3, 4, 5, 6]));
    assert_eq!(possible_rolls("2d4"), Ok(vec![2, 3, 4, 5, 3, 4, 5, 6, 4, 5, 6, 7, 5, 6, 7, 8]));
    assert_eq!(possible_rolls("1d3 - 2"), Ok(vec![-1, 0, 1]));
}

#[test]
fn outcomes_of_several_groups_change_the_last_group_fastest() {
    assert_eq!(possible_rolls("1d2 * 10 + 1d3"), Ok(vec![11, 12, 13, 21, 22, 23]));
    assert_eq!(possible_rolls("1d2 * 100 + 1d2 * 10 + 1d2"), Ok(vec![111, 112, 121, 122, 211, 212, 221, 222]));
    assert_eq!(possible_rolls("2d6 + 2d6").unwrap().len(), 1296);
    assert_eq!(possible_rolls("1d20 + 3d6").unwrap().len(), 4320);
}

#[test]
fn outcomes_are_rounded_toward_zero() {
    assert_eq!(possible_rolls("1d4 / 2"), Ok(vec![0, 1, 1, 2]));
    assert_eq!(possible_rolls("(1d4 - 5) / 2"), Ok(vec![-2, -1, -1, 0]));
    assert_eq!(possible_rolls("1d3 * 0.9"), Ok(vec![0, 1, 2]));
}

#[test]
fn a_string_without_dice_has_one_outcome() {
    assert_eq!(possible_rolls("3 + 4"), Ok(vec![7]));
    assert_eq!(possible_rolls("7 / 2"), Ok(vec![3]));
}

#[test]
fn outcomes_fail_as_a_whole() {
    assert_eq!(possible_rolls("1d4 + asdf"), Err(DiceError::MalformedExpression));
    assert_eq!(possible_rolls("1da4 + 3"), Err(DiceError::MalformedExpression));
    assert_eq!(possible_rolls("1d4 + 1d"), Err(DiceError::MalformedExpression));
    assert_eq!(possible_rolls("1d4 + d6"), Err(DiceError::MalformedExpression));
    assert_eq!(possible_rolls("(1d4 + 1d6"), Err(DiceError::MalformedExpression));
    assert_eq!(possible_rolls(""), Err(DiceError::MalformedExpression));
    assert_eq!(possible_rolls("   "), Err(DiceError::MalformedExpression));
    assert_eq!(possible_rolls("0d6"), Err(DiceError::DegenerateDiceGroup));
    assert_eq!(possible_rolls("1d6 + 2d0"), Err(DiceError::DegenerateDiceGroup));
    assert_eq!(possible_rolls("64d2"), Err(DiceError::ComplexityOverflow));
    assert_eq!(possible_rolls("1d99999999999999999999"), Err(DiceError::ComplexityOverflow));
}

#[test]
fn complexity_is_the_number_of_outcomes() {
    for text in ["1d6", "2d4 + 1", "1d2 * 10 + 1d3", "3d3 - 1d4", "7", "1d1 + 1d1"] {
        let outcomes = possible_rolls(text).unwrap();
        assert_eq!(roll_complexity(text), Ok(outcomes.len() as u64), "{}", text);
    }
}

#[test]
fn enumeration_gives_the_same_answer_at_every_call() {
    for text in ["1d2d6", "1da4 + 3", "1d4 + sqrt(4)", "2d3 * 2"] {
        let first = possible_rolls(text);
        for _ in 0..5 {
            assert_eq!(possible_rolls(text), first, "{}", text);
        }
    }
    assert_eq!(possible_rolls("1d2d6"), Err(DiceError::MalformedExpression));
    assert_eq!(possible_rolls("1d4 + sqrt(4)"), Ok(vec![3, 4, 5, 6]));
}
