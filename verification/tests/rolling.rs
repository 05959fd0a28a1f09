use destiny::{
    draw_faces, evaluate_rolled, evaluate_text, extract_dice_values, outcome_of_evaluation,
    parse_dice_string, replace_dice, roll_dice, roll_groups, total_of_faces, truncate_bits, DiceError,
    RollInfo,
};

#[test]
fn test_parse_dice_string() {
    for _ in 0..100 {
        let value = parse_dice_string("1d6").unwrap();
        assert!(value > 0 && value < 7);
    }
}

#[test]
fn test_math() {
    let value = parse_dice_string("1d1+2").unwrap();
    assert_eq!(value, 3);
}

#[test]
fn test_math_1() {
    let value = parse_dice_string("1d1 + 2").unwrap();
    assert_eq!(value, 3);
}

#[test]
fn test_math_2() {
    let value = parse_dice_string("1d1 - 1d1 + 2").unwrap();
    assert_eq!(value, 2);
}

#[test]
fn test_math_3() {
    let value = parse_dice_string("3 + 1d1 * 2").unwrap();
    assert_eq!(value, 5);
}

#[test]
fn test_math_4() {
    let value = parse_dice_string("(3 + 1d1) * 2").unwrap();
    assert_eq!(value, 8);
}

#[test]
fn test_less_whitespace() {
    let value = parse_dice_string("(3+1d1)*2").unwrap();
    assert_eq!(value, 8);
}

#[test]
fn test_more_whitespace() {
    let value = parse_dice_string("  (   3 + 1d1 ) *2 ").unwrap();
    assert_eq!(value, 8);
}

#[test]
fn test_bad_string_1() -> Result<(), String> {
    let value = parse_dice_string("1d4 + asdf");

    match value {
        Ok(_) => Err(String::from("dice string '1d4 + asdf' should have returned an error but did not")),
        Err(_) => Ok(()),
    }
}

#[test]
fn test_bad_string_2() -> Result<(), String> {
    let value = parse_dice_string("1da4 + 3");

    match value {
        Ok(_) => Err(String::from("dice string '1da4 + 3' should have returned an error but did not")),
        Err(_) => Ok(()),
    }
}

#[test]
fn test_bad_string_3() -> Result<(), String> {
    let value = parse_dice_string("1d4 + 1d");

    match value {
        Ok(_) => Err(String::from("dice string '1d4 + 1d' should have returned an error but did not")),
        Err(_) => Ok(()),
    }
}

#[test]
fn test_bad_string_4() -> Result<(), String> {
    let value = parse_dice_string("1d4 + d6");

    match value {
        Ok(_) => Err(String::from("dice string '1d4 + d6' should have returned an error but did not")),
        Err(_) => Ok(()),
    }
}

#[test]
fn test_bad_string_6() -> Result<(), String> {
    let value = parse_dice_string("(1d4 + 1d6");

    match value {
        Ok(_) => Err(String::from("dice string '(1d4 + 1d6' should have returned an error but did not")),
        Err(_) => Ok(()),
    }
}

#[test]
fn malformed_strings_give_the_malformed_error() {
    for text in ["1d4 + asdf", "1da4 + 3", "1d4 + 1d", "1d4 + d6", "(1d4 + 1d6"] {
        assert_eq!(parse_dice_string(text), Err(DiceError::MalformedExpression), "{}", text);
    }
}

#[test]
fn roll_with_offset_stays_in_range() {
    for _ in 0..500 {
        let value = parse_dice_string("1d6 + 3").unwrap();
        assert!((4..=9).contains(&value));
    }
}

#[test]
fn two_dice_stay_in_range_and_vary() {
    let mut seen = [false; 13];
    for _ in 0..2000 {
        let value = parse_dice_string("2d6").unwrap();
        assert!((2..=12).contains(&value));
        seen[value as usize] = true;
    }
    assert!(seen.iter().filter(|hit| **hit).count() > 1);
}

#[test]
fn blank_and_empty_strings_are_malformed() {
    assert_eq!(parse_dice_string(""), Err(DiceError::MalformedExpression));
    assert_eq!(parse_dice_string(" "), Err(DiceError::MalformedExpression));
    assert_eq!(parse_dice_string(" \t\r\n "), Err(DiceError::MalformedExpression));
    assert_eq!(evaluate_text("   "), Err(DiceError::MalformedExpression));
}

#[test]
fn degenerate_groups_are_rejected() {
    assert_eq!(parse_dice_string("0d6"), Err(DiceError::DegenerateDiceGroup));
    assert_eq!(parse_dice_string("2d0 + 1"), Err(DiceError::DegenerateDiceGroup));
    assert_eq!(parse_dice_string("1d6 + 0d0"), Err(DiceError::DegenerateDiceGroup));
    assert_eq!(parse_dice_string("0d99999999999999999999999"), Err(DiceError::DegenerateDiceGroup));
}

#[test]
fn oversized_groups_are_rejected() {
    assert_eq!(parse_dice_string("1d99999999999999999999999"), Err(DiceError::ComplexityOverflow));
    assert_eq!(parse_dice_string("18446744073709551616d2"), Err(DiceError::ComplexityOverflow));
    assert_eq!(
        parse_dice_string("4294967296d4294967296"),
        Err(DiceError::ComplexityOverflow)
    );
    assert_eq!(
        parse_dice_string("1d99999999999999999999999 + 0d6"),
        Err(DiceError::ComplexityOverflow)
    );
}

#[test]
fn the_largest_die_can_be_rolled() {
    let value = RollInfo { num: 1, size: u64::MAX }.roll().unwrap();
    assert!(value >= 1);
}

#[test]
fn roll_dice_stays_between_one_and_size_per_die() {
    for _ in 0..200 {
        let total = roll_dice(3, 6);
        assert!((3..=18).contains(&total));
    }
    assert_eq!(roll_dice(5, 1), 5);
    assert_eq!(roll_dice(0, 6), 0);
}

#[test]
fn roll_reports_what_is_wrong_with_a_group() {
    assert_eq!(RollInfo { num: 0, size: 6 }.roll(), Err(DiceError::DegenerateDiceGroup));
    assert_eq!(RollInfo { num: 2, size: 0 }.roll(), Err(DiceError::DegenerateDiceGroup));
    assert_eq!(RollInfo { num: 2, size: u64::MAX }.roll(), Err(DiceError::ComplexityOverflow));
    assert_eq!(RollInfo { num: 7, size: 1 }.roll(), Ok(7));
}

#[test]
fn roll_groups_rolls_each_group_in_order() {
    let groups = vec![RollInfo { num: 2, size: 1 }, RollInfo { num: 1, size: 1 }, RollInfo { num: 3, size: 4 }];
    let rolls = roll_groups(&groups).unwrap();
    assert_eq!(rolls.len(), 3);
    assert_eq!(rolls[0], 2);
    assert_eq!(rolls[1], 1);
    assert!((3..=12).contains(&rolls[2]));
    let bad = vec![RollInfo { num: 1, size: 6 }, RollInfo { num: 0, size: 6 }];
    assert_eq!(roll_groups(&bad), Err(DiceError::DegenerateDiceGroup));
}

#[test]
fn replace_dice_keeps_the_text_around_the_groups() {
    assert_eq!(replace_dice("(3 + 1d1) * 2d1").unwrap(), "(3 + 1) * 2");
    assert_eq!(replace_dice("no dice here").unwrap(), "no dice here");
    let text = replace_dice("1d6 + 1da4").unwrap();
    assert!(text.ends_with(" + 1da4"));
    let face: u64 = text[..text.len() - 7].parse().unwrap();
    assert!((1..=6).contains(&face));
}

#[test]
fn given_rolls_make_the_evaluation_deterministic() {
    let (template, _) = extract_dice_values("2d6 * 1d4 - 1");
    assert_eq!(evaluate_rolled(&template, &vec![7, 3]), Ok(20));
    assert_eq!(evaluate_rolled(&template, &vec![12, 4]), Ok(47));
    let (template, _) = extract_dice_values("1d6 / 4");
    assert_eq!(evaluate_rolled(&template, &vec![6]), Ok(1));
    assert_eq!(evaluate_rolled(&template, &vec![3]), Ok(0));
    let (template, _) = extract_dice_values("0 - 1d20 / 8");
    assert_eq!(evaluate_rolled(&template, &vec![20]), Ok(-2));
    let (template, _) = extract_dice_values("1d6 +");
    assert_eq!(evaluate_rolled(&template, &vec![6]), Err(DiceError::MalformedExpression));
}

#[test]
fn evaluation_rounds_toward_zero() {
    assert_eq!(evaluate_text("2.9"), Ok(2));
    assert_eq!(evaluate_text("0 - 2.9"), Ok(-2));
    assert_eq!(evaluate_text("-2.9"), Ok(-2));
    assert_eq!(evaluate_text("7 / 2"), Ok(3));
    assert_eq!(evaluate_text("(0 - 7) / 2"), Ok(-3));
    assert_eq!(evaluate_text("1 / 3"), Ok(0));
    assert_eq!(evaluate_text("2 * (3 + 4)"), Ok(14));
    assert_eq!(evaluate_text("1 / 0"), Ok(i64::MAX));
    assert_eq!(evaluate_text("-1 / 0"), Ok(i64::MIN));
    assert_eq!(evaluate_text("0 / 0"), Ok(0));
    assert_eq!(evaluate_text("2 +"), Err(DiceError::MalformedExpression));
    assert_eq!(evaluate_text("x"), Err(DiceError::MalformedExpression));
}

#[test]
fn truncation_agrees_with_the_cast_of_the_language() {
    let samples = [
        0.0,
        -0.0,
        0.5,
        -0.5,
        0.999_999_999,
        1.0,
        -1.0,
        2.9,
        -2.9,
        1e-320,
        4_503_599_627_370_496.0,
        4_503_599_627_370_497.0,
        9_007_199_254_740_991.0,
        9_007_199_254_740_993.5,
        -9_007_199_254_740_991.0,
        9_223_372_036_854_774_784.0,
        9_223_372_036_854_775_808.0,
        -9_223_372_036_854_775_808.0,
        -9_223_372_036_854_777_856.0,
        1e19,
        -1e19,
        1e300,
        f64::MAX,
        f64::MIN,
        f64::MIN_POSITIVE,
        f64::INFINITY,
        f64::NEG_INFINITY,
        f64::NAN,
        123_456.789,
        -123_456.789,
    ];
    for sample in samples {
        assert_eq!(truncate_bits(sample.to_bits()), sample as i64, "{}", sample);
    }
    assert_eq!(truncate_bits(2.9f64.to_bits()), 2);
    assert_eq!(truncate_bits((-2.9f64).to_bits()), -2);
    assert_eq!(truncate_bits(0x7ff8_0000_0000_0001), 0);
    assert_eq!(truncate_bits(0xfff0_0000_0000_0001), 0);
}

#[test]
fn truncation_agrees_with_the_cast_on_many_bit_patterns() {
    let mut bits: u64 = 0x9e37_79b9_7f4a_7c15;
    for _ in 0..200_000 {
        bits ^= bits << 13;
        bits ^= bits >> 7;
        bits ^= bits << 17;
        assert_eq!(truncate_bits(bits), f64::from_bits(bits) as i64, "{:#x}", bits);
        let near = (bits & 0x800f_ffff_ffff_ffff) | ((1000 + (bits >> 52) % 100) << 52);
        assert_eq!(truncate_bits(near), f64::from_bits(near) as i64, "{:#x}", near);
    }
}

#[test]
fn outcome_of_evaluation_maps_every_error_to_malformed() {
    let bits = |evaluated: Result<f64, meval::Error>| evaluated.map(f64::to_bits);
    assert_eq!(outcome_of_evaluation(bits(meval::eval_str("2.9"))), Ok(2));
    assert_eq!(outcome_of_evaluation(bits(meval::eval_str("1 + 2 * 3"))), Ok(7));
    assert_eq!(outcome_of_evaluation(bits(meval::eval_str("(1"))), Err(DiceError::MalformedExpression));
    assert_eq!(outcome_of_evaluation(bits(meval::eval_str("y + 1"))), Err(DiceError::MalformedExpression));
    assert_eq!(outcome_of_evaluation(bits(meval::eval_str(""))), Err(DiceError::MalformedExpression));
    assert_eq!(outcome_of_evaluation(Ok(9.99f64.to_bits())), Ok(9));
}

#[test]
fn error_messages_differ() {
    let messages = [
        DiceError::MalformedExpression.message(),
        DiceError::DegenerateDiceGroup.message(),
        DiceError::ComplexityOverflow.message(),
    ];
    assert_eq!(messages[0], "malformed expression");
    assert_ne!(messages[0], messages[1]);
    assert_ne!(messages[1], messages[2]);
}

#[test]
fn faces_are_added_up() {
    assert_eq!(total_of_faces(&vec![3, 1, 6], 6), 10);
    assert_eq!(total_of_faces(&vec![], 6), 0);
    assert_eq!(total_of_faces(&vec![1, 1, 1, 1], 1), 4);
    assert_eq!(total_of_faces(&vec![20], 20), 20);
    assert_eq!(total_of_faces(&vec![u64::MAX], u64::MAX), u64::MAX);
    assert_eq!(total_of_faces(&vec![6, 6, 6, 6, 6], 6), 30);
}

#[test]
fn one_face_is_drawn_for_each_die() {
    for _ in 0..200 {
        let faces = draw_faces(5, 6);
        assert_eq!(faces.len(), 5);
        assert!(faces.iter().all(|face| (1..=6).contains(face)));
    }
    assert_eq!(draw_faces(4, 1), vec![1, 1, 1, 1]);
    assert_eq!(draw_faces(0, 6), Vec::<u64>::new());
}

#[test]
fn every_face_comes_up() {
    let mut seen = [false; 7];
    for _ in 0..200 {
        for face in draw_faces(10, 6) {
            seen[face as usize] = true;
        }
    }
    assert_eq!(seen, [false, true, true, true, true, true, true]);
    let mut both = [false; 3];
    for face in draw_faces(200, 2) {
        both[face as usize] = true;
    }
    assert_eq!(both, [false, true, true]);
}

#[test]
fn nan_results_are_zero_whatever_their_bits() {
    for text in ["0 / 0", "0 % 0", "1 / 0 - 1 / 0", "0 * (1 / 0)", "-(0 / 0)"] {
        assert_eq!(evaluate_text(text), Ok(0), "{}", text);
    }
    for bits in [0x7ff8_0000_0000_0000u64, 0xfff8_0000_0000_0000, 0x7ff0_0000_0000_0001, 0xffff_ffff_ffff_ffff] {
        assert_eq!(truncate_bits(bits), 0);
    }
}

#[test]
fn text_with_names_fails_just_when_the_evaluator_does() {
    let (template, _) = extract_dice_values("1d2d6");
    assert_eq!(evaluate_rolled(&template, &vec![1]), Err(DiceError::MalformedExpression));
    assert_eq!(evaluate_rolled(&template, &vec![2]), Err(DiceError::MalformedExpression));
    for text in ["3 + asdf", "1da4 + 3", "2 + 1d", "2 + d6", "1d6", "x", "2 ^", "sqrt(", "max()"] {
        assert!(meval::eval_str(text).is_err(), "{}", text);
        assert_eq!(evaluate_text(text), Err(DiceError::MalformedExpression), "{}", text);
    }
    for text in ["sqrt(16)", "2 ^ 3", "max(1, 7, 3)", "floor(2.5) + pi * 0"] {
        assert!(meval::eval_str(text).is_ok(), "{}", text);
        assert!(evaluate_text(text).is_ok(), "{}", text);
    }
    assert_eq!(evaluate_text("sqrt(16)"), Ok(4));
    assert_eq!(evaluate_text("2 ^ 3"), Ok(8));
    assert_eq!(evaluate_text("max(1, 7, 3)"), Ok(7));
}
