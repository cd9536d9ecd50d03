use advent2022::alt::day02::{parse, part_one_rounds, part_two_rounds};
use advent2022::day02::{player_score, Outcome, Round, Shape};

#[test]
fn parse_chars() {
    let input = "A Y\nB X\nC Z\n";
    let result = parse(input).unwrap();
    let expected = vec![('A', 'Y'), ('B', 'X'), ('C', 'Z')];

    assert_eq!(result, expected);
}

#[test]
fn part_one_round_compositions() {
    let result = part_one_rounds(&[('A', 'Y'), ('B', 'X'), ('C', 'Z')]).unwrap();
    let expected = vec![
        Round(Shape::Paper, Shape::Rock),
        Round(Shape::Rock, Shape::Paper),
        Round(Shape::Scissors, Shape::Scissors),
    ];

    assert_eq!(result, expected);
}

#[test]
fn part_one_player_score_calculates_total() {
    let rounds = vec![
        Round(Shape::Paper, Shape::Rock),
        Round(Shape::Rock, Shape::Paper),
        Round(Shape::Scissors, Shape::Scissors),
    ];
    let result = player_score(rounds);

    assert_eq!(result, 15);
}

#[test]
fn part_two_round_compositions() {
    let result = part_two_rounds(&[('A', 'Y'), ('B', 'X'), ('C', 'Z')]).unwrap();
    let expected = vec![
        Round(Shape::Rock, Shape::Rock),
        Round(Shape::Rock, Shape::Paper),
        Round(Shape::Rock, Shape::Scissors),
    ];

    assert_eq!(result, expected);
}

#[test]
fn part_two_player_score_calculates_total() {
    let rounds = vec![
        Round(Shape::Rock, Shape::Rock),
        Round(Shape::Rock, Shape::Paper),
        Round(Shape::Rock, Shape::Scissors),
    ];
    let result = player_score(rounds);

    assert_eq!(result, 12);
}

#[test]
fn for_outcome_gives_the_shape_that_ends_the_round_so() {
    for opponent in [Shape::Rock, Shape::Paper, Shape::Scissors] {
        for outcome in [Outcome::Lost, Outcome::Draw, Outcome::Won] {
            let player = opponent.for_outcome(outcome);
            assert_eq!(Round(player, opponent).outcome(), outcome);
        }
    }
    assert_eq!(Shape::Rock.for_outcome(Outcome::Won), Shape::Paper);
    assert_eq!(Shape::Rock.for_outcome(Outcome::Lost), Shape::Scissors);
}

#[test]
fn letters_that_stand_for_nothing_are_refused() {
    assert_eq!(Shape::from_char('B'), Some(Shape::Paper));
    assert_eq!(Shape::from_char('b'), None);
    assert_eq!(part_one_rounds(&[('A', 'Y'), ('A', 'Q')]), None);
    assert_eq!(part_two_rounds(&[('A', 'A')]), None);
    assert_eq!(parse("AY\n"), None);
    assert_eq!(parse("A-Y\nxyz"), Some(vec![('A', 'Y'), ('x', 'z')]));
}
