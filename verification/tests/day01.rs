use advent2022::day01::{parse, top_elf, top_elves, ParseError};

const CALORIES: &str = "1000\n2000\n3000\n\n4000\n\n5000\n6000\n\n7000\n8000\n9000\n\n10000\n";

#[test]
fn parse_elf_sums() {
    let input = CALORIES;
    let result = parse(input).unwrap();
    assert_eq!(result, [6000, 4000, 11000, 24000, 10000]);
}

#[test]
fn find_max_elf() {
    let result = top_elf(&[6000, 4000, 11000, 24000, 10000]).unwrap();
    assert_eq!(result, 24000);
}

#[test]
fn find_top_sum() {
    let result = top_elves(vec![6000, 4000, 11000, 24000, 10000], 3);
    assert_eq!(result, 45000);
}

#[test]
fn parse_counts_a_last_list_without_a_line_feed() {
    assert_eq!(parse("1\n2\n\n3").unwrap(), [3, 3]);
}

#[test]
fn parse_of_nothing_is_one_elf_without_food() {
    assert_eq!(parse("").unwrap(), [0]);
}

#[test]
fn parse_keeps_an_elf_without_food() {
    assert_eq!(parse("\n5\n").unwrap(), [0, 5]);
}

#[test]
fn parse_rejects_what_is_no_number() {
    assert_eq!(parse("12\nabc\n"), Err(ParseError::InvalidNumber));
    assert_eq!(parse("12\n-3\n"), Err(ParseError::InvalidNumber));
    assert_eq!(parse("99999999999999999999999999\n"), Err(ParseError::InvalidNumber));
}

#[test]
fn parse_rejects_a_sum_that_is_too_large() {
    let input = format!("{}\n1\n", usize::MAX);
    assert_eq!(parse(&input), Err(ParseError::TooLarge));
}

#[test]
fn top_elf_of_nobody_is_none() {
    assert_eq!(top_elf(&[]), None);
}

#[test]
fn top_elves_sorts_before_it_sums() {
    assert_eq!(top_elves(vec![5, 1, 9, 3], 2), 14);
    assert_eq!(top_elves(vec![5, 1, 9, 3], 0), 0);
    assert_eq!(top_elves(vec![5, 1, 9, 3], 4), 18);
}
