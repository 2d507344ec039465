use roll::eval::{add_rolled_to_total, add_rolled_to_total_and_output, arrange, sum_of};
use roll::{
    add_to_total, add_to_total_and_output, consume_input_to_output,
    consume_input_to_output_without_error, consume_input_to_rolls, evaluate_rolls, parse_trimmed,
    DropDie, Roll, RollError,
};

fn parse(s: &str) -> Vec<Roll> {
    parse_trimmed(s).expect("parses")
}

fn render(input: &str, draws: Vec<Vec<u32>>, skip: bool, short: bool) -> Result<String, RollError> {
    let mut rolls = parse(input);
    evaluate_rolls(&mut rolls, &draws, skip, short, false)
}

#[test]
fn one_die_parses() {
    let rolls = parse("1d6");
    assert_eq!(rolls.len(), 1);
    assert_eq!(rolls[0].num_rolls, 1);
    assert_eq!(rolls[0].dice_sides, 6);
    assert_eq!(rolls[0].multiplier, 1);
    assert_eq!(rolls[0].drop_die, None);
    assert!(rolls[0].results.is_empty());
}

#[test]
fn bare_d_means_one_die() {
    let rolls = parse("d20");
    assert_eq!(rolls.len(), 1);
    assert_eq!(rolls[0].num_rolls, 1);
    assert_eq!(rolls[0].dice_sides, 20);
}

#[test]
fn drop_lowest_parses_and_keeps_highest() {
    let mut rolls = parse("2d20dl1");
    assert_eq!(rolls.len(), 1);
    assert_eq!(rolls[0].num_rolls, 2);
    assert_eq!(rolls[0].dice_sides, 20);
    assert_eq!(rolls[0].multiplier, 1);
    assert_eq!(rolls[0].drop_die, Some(DropDie::DropLowest(1)));
    let mut total: i64 = 0;
    assert_eq!(add_rolled_to_total(&mut rolls[0], &vec![5, 17], &mut total), Ok(()));
    assert_eq!(rolls[0].results, vec![17]);
    assert_eq!(total, 17);
}

#[test]
fn drop_lowest_renders_marked_and_skipped() {
    assert_eq!(render("2d20dl1", vec![vec![5, 17]], false, false), Ok("(X5 + 17) => 17".to_string()));
    assert_eq!(render("2d20dl1", vec![vec![5, 17]], true, false), Ok("17 => 17".to_string()));
}

#[test]
fn drop_count_at_least_roll_count_keeps_all() {
    let mut rolls = parse("3d4dh5");
    assert_eq!(rolls[0].drop_die, Some(DropDie::DropHighest(5)));
    let mut total: i64 = 0;
    let mut out = String::new();
    let r = add_rolled_to_total_and_output(0, &mut rolls[0], &vec![3, 1, 4], &mut total, &mut out, false, false);
    assert_eq!(r, Ok(()));
    assert_eq!(rolls[0].results, vec![3, 1, 4]);
    assert_eq!(total, 8);
    assert_eq!(out, "(3 + 1 + 4)");
}

#[test]
fn signs_of_three_terms() {
    let rolls = parse("2d6 + 1d4 - 1d20");
    let signs: Vec<i8> = rolls.iter().map(|r| r.multiplier).collect();
    assert_eq!(signs, vec![1, 1, -1]);
    let draws = vec![vec![2, 5], vec![3], vec![10]];
    assert_eq!(render("2d6 + 1d4 - 1d20", draws.clone(), false, false), Ok("(2 + 5) + 3 - 10 => 0".to_string()));
    let reordered = vec![vec![10], vec![3], vec![2, 5]];
    assert_eq!(render("1d20 - 1d4 - 2d6", reordered, false, true), Ok("0".to_string()));
}

#[test]
fn minus_without_spaces_negates_the_next_term() {
    let rolls = parse("2d6-1d4");
    assert_eq!(rolls.len(), 2);
    assert_eq!(rolls[0].multiplier, 1);
    assert_eq!(rolls[1].multiplier, -1);
    assert_eq!(render("2d6-1d4", vec![vec![1, 2], vec![4]], false, false), Ok("(1 + 2) - 4 => -1".to_string()));
}

#[test]
fn short_output_is_the_long_total() {
    let draws = vec![vec![6, 6, 1], vec![3]];
    let long = render("3d6dl1 - 1d8", draws.clone(), false, false).unwrap();
    let short = render("3d6dl1 - 1d8", draws, false, true).unwrap();
    assert_eq!(short, "9");
    assert!(long.ends_with(&format!(" => {}", short)));
}

#[test]
fn skip_and_mark_differ_but_share_total() {
    let draws = vec![vec![3, 1, 6, 2]];
    let marked = render("4d6dl1", draws.clone(), false, false).unwrap();
    let skipped = render("4d6dl1", draws, true, false).unwrap();
    assert_eq!(marked, "(X1 + 2 + 3 + 6) => 11");
    assert_eq!(skipped, "(2 + 3 + 6) => 11");
    assert_ne!(marked, skipped);
}

#[test]
fn drop_highest_sorts_descending() {
    let draws = vec![vec![3, 1, 6, 2]];
    assert_eq!(render("4d6dh2", draws.clone(), false, false), Ok("(X6 + X3 + 2 + 1) => 3".to_string()));
    assert_eq!(render("4d6dh2", draws, true, false), Ok("(2 + 1) => 3".to_string()));
}

#[test]
fn coloured_marker() {
    let mut rolls = parse("2d6dl1");
    let r = evaluate_rolls(&mut rolls, &vec![vec![4, 2]], false, false, true);
    assert_eq!(r, Ok("(\x1b[0;91mX\x1b[0m2 + 4) => 4".to_string()));
}

#[test]
fn trailing_plus_gives_empty_term() {
    let rolls = parse("1d6+");
    assert_eq!(rolls.len(), 2);
    assert_eq!(rolls[1].num_rolls, 0);
    assert_eq!(render("1d6+", vec![vec![4], vec![]], false, false), Ok("4 => 4".to_string()));
    assert_eq!(render("1d6+", vec![vec![4], vec![]], false, true), Ok("4".to_string()));
}

#[test]
fn empty_term_adds_nothing() {
    let mut roll = Roll::new();
    let mut total: i64 = 5;
    let mut out = String::from("x");
    let r = add_rolled_to_total_and_output(1, &mut roll, &vec![], &mut total, &mut out, false, false);
    assert_eq!(r, Ok(()));
    assert_eq!(total, 5);
    assert_eq!(out, "x");
}

#[test]
fn term_count_follows_signs() {
    assert_eq!(parse("1d6+2d4-3d8").len(), 3);
    assert_eq!(parse("1d6 + 2d4dl1 - 3d8").len(), 3);
    assert_eq!(parse("1d6+1d4+").len(), 3);
    assert_eq!(parse_trimmed("1d6+-").err(), Some(RollError::UnknownCharacter));
}

#[test]
fn unknown_character_is_rejected() {
    assert_eq!(parse_trimmed("1x6").err(), Some(RollError::UnknownCharacter));
    assert_eq!(parse_trimmed("2d6dx1").err(), Some(RollError::UnknownCharacter));
    assert_eq!(parse_trimmed("1d6 2d6").err(), Some(RollError::UnknownCharacter));
}

#[test]
fn sign_after_drop_count_is_consumed() {
    assert_eq!(parse_trimmed("2d6dl1-1d4").err(), Some(RollError::UnknownCharacter));
    let rolls = parse("2d6dl1 -1d4");
    assert_eq!(rolls.len(), 2);
    assert_eq!(rolls[1].multiplier, -1);
}

#[test]
fn oversized_numbers_are_rejected() {
    assert_eq!(parse_trimmed("1d256").err(), Some(RollError::NumberTooLarge));
    assert_eq!(parse("1d255")[0].dice_sides, 255);
    assert_eq!(parse_trimmed("99999999999999999999d6").err(), Some(RollError::NumberTooLarge));
    assert_eq!(parse_trimmed("2d6dl99999999999999999999").err(), Some(RollError::NumberTooLarge));
}

#[test]
fn dice_without_sides_are_rejected() {
    assert_eq!(render("1d0", vec![vec![]], false, false), Err(RollError::NoSides));
    assert_eq!(consume_input_to_output(&"2d".to_string(), false, false, false), Err(RollError::NoSides));
}

#[test]
fn bad_multiplier_is_rejected() {
    let mut roll = Roll::new();
    roll.num_rolls = 1;
    roll.dice_sides = 6;
    roll.multiplier = 3;
    let mut total: i64 = 0;
    assert_eq!(add_rolled_to_total(&mut roll, &vec![2], &mut total), Err(RollError::BadMultiplier));
    assert_eq!(total, 0);
}

#[test]
fn total_out_of_range_is_rejected() {
    let mut roll = Roll::new();
    roll.num_rolls = 1;
    roll.dice_sides = 6;
    let mut total: i64 = i64::MAX;
    assert_eq!(add_rolled_to_total(&mut roll, &vec![1], &mut total), Err(RollError::TotalOutOfRange));
    assert_eq!(total, i64::MAX);
    roll.multiplier = -1;
    assert_eq!(add_rolled_to_total(&mut roll, &vec![1], &mut total), Ok(()));
    assert_eq!(total, i64::MAX - 1);
}

#[test]
fn multi_digit_and_negative_numerals() {
    assert_eq!(render("1d100", vec![vec![100]], false, false), Ok("100 => 100".to_string()));
    assert_eq!(render("1d4 - 1d20", vec![vec![1], vec![20]], false, false), Ok("1 - 20 => -19".to_string()));
}

#[test]
fn sum_and_arrange_helpers() {
    assert_eq!(sum_of(&vec![4, 5, 6]), 15);
    assert_eq!(arrange(&vec![3, 1, 2], Some(DropDie::DropLowest(1))), vec![1, 2, 3]);
    assert_eq!(arrange(&vec![3, 1, 2], Some(DropDie::DropHighest(1))), vec![3, 2, 1]);
    assert_eq!(arrange(&vec![3, 1, 2], Some(DropDie::DropHighest(3))), vec![3, 1, 2]);
    assert_eq!(arrange(&vec![3, 1, 2], None), vec![3, 1, 2]);
}

#[test]
fn surrounding_whitespace_is_trimmed() {
    let rolls = consume_input_to_rolls(&"  1d6 \n".to_string()).unwrap();
    assert_eq!(rolls.len(), 1);
    assert_eq!(parse("1d6 ").len(), 2);
}

#[test]
fn random_rolls_stay_in_range() {
    for _ in 0..50 {
        let out = consume_input_to_output(&"2d6".to_string(), false, true, false).unwrap();
        let v: i64 = out.parse().unwrap();
        assert!((2..=12).contains(&v));
    }
    let mut roll = parse("3d4dl1").remove(0);
    let mut total: i64 = 0;
    let mut rng = rand::rng();
    assert_eq!(add_to_total(&mut roll, &mut total, &mut rng), Ok(()));
    assert_eq!(roll.results.len(), 2);
    assert!((2..=8).contains(&total));
    let mut roll = parse("1d1").remove(0);
    let mut out = String::new();
    assert_eq!(add_to_total_and_output(0, &mut roll, &mut total, &mut out, &mut rng, false, false), Ok(()));
    assert_eq!(out, "1");
}

#[test]
fn errors_become_messages() {
    assert_eq!(consume_input_to_output_without_error("abc".to_string(), false, false), "Unknown character encountered");
    assert_eq!(consume_input_to_output_without_error("1d1 + 1d1".to_string(), false, false), "1 + 1 => 2");
    assert_eq!(RollError::NoSides.message(), "Cannot roll a die with no sides");
}
