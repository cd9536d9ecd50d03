use advent2022::day02::{alt_parse, parse, player_score, HasScore, Outcome, Round, Shape};

const GUIDE: &str = "A Y\nB X\nC Z\n";

#[test]
fn parse_rounds() {
    let input = GUIDE;
    let result = parse(input).unwrap();
    let expected = vec![
        Round(Shape::Paper, Shape::Rock),
        Round(Shape::Rock, Shape::Paper),
        Round(Shape::Scissors, Shape::Scissors),
    ];

    assert_eq!(result, expected);
}

#[test]
fn player_score_calculates_total() {
    let rounds = vec![
        Round(Shape::Paper, Shape::Rock),
        Round(Shape::Rock, Shape::Paper),
        Round(Shape::Scissors, Shape::Scissors),
    ];
    let result = player_score(rounds);

    assert_eq!(result, 15);
}

#[test]
fn alt_parse_rounds() {
    let input = GUIDE;
    let result = alt_parse(input).unwrap();
    let expected = vec![
        Round(Shape::Rock, Shape::Rock),
        Round(Shape::Rock, Shape::Paper),
        Round(Shape::Rock, Shape::Scissors),
    ];

    assert_eq!(result, expected);
}

#[test]
fn player_score_calculates_total_part_two() {
    let rounds = vec![
        Round(Shape::Rock, Shape::Rock),
        Round(Shape::Rock, Shape::Paper),
        Round(Shape::Rock, Shape::Scissors),
    ];
    let result = player_score(rounds);

    assert_eq!(result, 12);
}

#[test]
fn shapes_and_outcomes_from_letters() {
    assert_eq!(Shape::new('A'), Some(Shape::Rock));
    assert_eq!(Shape::new('Y'), Some(Shape::Paper));
    assert_eq!(Shape::new('Z'), Some(Shape::Scissors));
    assert_eq!(Shape::new('D'), None);
    assert_eq!(Outcome::from_char('X'), Some(Outcome::Lost));
    assert_eq!(Outcome::from_char('Y'), Some(Outcome::Draw));
    assert_eq!(Outcome::from_char('Z'), Some(Outcome::Won));
    assert_eq!(Outcome::from_char('A'), None);
}

#[test]
fn every_round_has_its_outcome_and_score() {
    assert_eq!(Round(Shape::Rock, Shape::Scissors).outcome(), Outcome::Won);
    assert_eq!(Round(Shape::Rock, Shape::Paper).outcome(), Outcome::Lost);
    assert_eq!(Round(Shape::Rock, Shape::Rock).outcome(), Outcome::Draw);
    assert_eq!(Round(Shape::Paper, Shape::Rock).outcome(), Outcome::Won);
    assert_eq!(Round(Shape::Paper, Shape::Scissors).outcome(), Outcome::Lost);
    assert_eq!(Round(Shape::Scissors, Shape::Paper).outcome(), Outcome::Won);
    assert_eq!(Round(Shape::Scissors, Shape::Rock).outcome(), Outcome::Lost);
    assert_eq!(Round(Shape::Paper, Shape::Rock).score(), 8);
    assert_eq!(Round(Shape::Rock, Shape::Paper).score(), 1);
    assert_eq!(Round(Shape::Scissors, Shape::Scissors).score(), 6);
    assert_eq!(Shape::Scissors.score(), 3);
    assert_eq!(Outcome::Won.score(), 6);
}

#[test]
fn parse_rejects_short_lines_and_strange_letters() {
    assert_eq!(parse("A Y\nB\n"), None);
    assert_eq!(parse("A Q\n"), None);
    assert_eq!(alt_parse("A A\n"), None);
    assert_eq!(parse(""), Some(vec![]));
}

#[test]
fn player_score_of_no_round_is_zero() {
    assert_eq!(player_score(vec![]), 0);
}
