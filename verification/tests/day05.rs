use advent2022::day05::{parse, parse_directions, parse_stacks, part_one, times, Direction, Stacks};

fn stacks_fixture() -> Stacks {
    Stacks {
        stacks: vec![vec!['Z', 'N'], vec!['M', 'C', 'D'], vec!['P']],
    }
}

fn directions_fixture() -> Vec<Direction> {
    vec![
        Direction {
            num_crates: 1,
            from: 2,
            to: 1,
        },
        Direction {
            num_crates: 3,
            from: 1,
            to: 3,
        },
        Direction {
            num_crates: 2,
            from: 2,
            to: 1,
        },
        Direction {
            num_crates: 1,
            from: 1,
            to: 2,
        },
    ]
}

const INPUT: &str = "    [D]    \n[N] [C]    \n[Z] [M] [P]\n 1   2   3 \n\nmove 1 from 2 to 1\nmove 3 from 1 to 3\nmove 2 from 2 to 1\nmove 1 from 1 to 2\n";

#[test]
fn day05_parse_test() {
    let input = INPUT;
    let (stacks, directions) = parse(input).unwrap();

    assert_eq!(stacks, stacks_fixture());
    assert_eq!(directions, directions_fixture());
}

#[test]
fn day05_part_one_test() {
    let stacks = stacks_fixture();
    let directions = directions_fixture();

    let result = part_one(stacks, directions).unwrap();

    assert_eq!(result, "CMZ")
}

#[test]
fn execute_lifts_one_crate_at_a_time() {
    let mut stacks = stacks_fixture();
    stacks.execute(Direction { num_crates: 3, from: 2, to: 3 });
    assert_eq!(
        stacks,
        Stacks { stacks: vec![vec!['Z', 'N'], vec![], vec!['P', 'D', 'C', 'M']] }
    );
    stacks.execute(Direction { num_crates: 0, from: 2, to: 1 });
    stacks.execute(Direction { num_crates: 2, from: 1, to: 1 });
    assert_eq!(
        stacks,
        Stacks { stacks: vec![vec!['Z', 'N'], vec![], vec!['P', 'D', 'C', 'M']] }
    );
}

#[test]
fn can_execute_tells_what_the_crane_can_follow() {
    let stacks = stacks_fixture();
    assert!(stacks.can_execute(&Direction { num_crates: 3, from: 2, to: 1 }));
    assert!(!stacks.can_execute(&Direction { num_crates: 4, from: 2, to: 1 }));
    assert!(!stacks.can_execute(&Direction { num_crates: 1, from: 0, to: 1 }));
    assert!(!stacks.can_execute(&Direction { num_crates: 1, from: 1, to: 4 }));
    assert!(stacks.can_execute(&Direction { num_crates: 9, from: 3, to: 3 }));
    assert!(stacks.can_execute(&Direction { num_crates: 0, from: 1, to: 2 }));
}

#[test]
fn peek_all_reads_the_tops() {
    assert_eq!(stacks_fixture().peek_all(), "NDP");
    assert!(stacks_fixture().all_hold());
    assert!(!Stacks { stacks: vec![vec!['a'], vec![]] }.all_hold());
    assert_eq!(Stacks { stacks: vec![] }.peek_all(), "");
}

#[test]
fn part_one_gives_nothing_where_the_crane_is_stuck() {
    let too_many = vec![Direction { num_crates: 3, from: 1, to: 2 }];
    assert_eq!(part_one(stacks_fixture(), too_many), None);
    let emptied = vec![Direction { num_crates: 1, from: 3, to: 1 }];
    assert_eq!(part_one(stacks_fixture(), emptied), None);
    assert_eq!(part_one(stacks_fixture(), vec![]), Some("NDP".to_string()));
}

#[test]
fn parse_stacks_reads_rows_from_the_lowest_up() {
    let stacks = parse_stacks("[A]\n[B] [C]\n 1   2").unwrap();
    assert_eq!(stacks, Stacks { stacks: vec![vec!['B', 'A'], vec!['C']] });
    assert_eq!(parse_stacks(" 1   2   3 ").unwrap(), Stacks { stacks: vec![vec![], vec![], vec![]] });
    assert_eq!(parse_stacks(""), None);
    assert_eq!(parse_stacks("[A] [B]\n 1 "), None);
    assert_eq!(parse_stacks("[A] \n 1   2"), Some(Stacks { stacks: vec![vec!['A'], vec![]] }));
    assert_eq!(parse_stacks("[A] [\n 1   2"), None);
}

#[test]
fn parse_directions_reads_moves() {
    assert_eq!(
        parse_directions("move 10 from 2 to 13\n"),
        Some(vec![Direction { num_crates: 10, from: 2, to: 13 }])
    );
    assert_eq!(parse_directions(""), Some(vec![]));
    assert_eq!(parse_directions("move 1 from 2\n"), None);
    assert_eq!(parse_directions("move x from 2 to 3\n"), None);
    assert_eq!(parse_directions("move +1 from 2 to 3\n"), None);
    assert_eq!(parse_directions("move 1 from 2 to 99999999999999999999999\n"), None);
    assert_eq!(parse_directions("move 1  from 2 to 3\n"), None);
    assert_eq!(parse_directions("\n"), None);
}

#[test]
fn a_move_may_stand_anywhere_in_its_line() {
    let expected = Some(vec![Direction { num_crates: 1, from: 2, to: 3 }]);
    assert_eq!(parse_directions("please move 1 from 2 to 3"), expected);
    assert_eq!(parse_directions("move 1 from 2 to 3 now"), expected);
    assert_eq!(parse_directions("move 1 from 2 to 3x4"), expected);
    assert_eq!(parse_directions("move move 1 from 2 to 3, move 4 from 5 to 6"), expected);
    assert_eq!(parse_directions("move 9 from x to move 1 from 2 to 3"), expected);
    assert_eq!(
        parse_directions("move 99999999999999999999999 from 2 to 3 move 1 from 2 to 3"),
        None
    );
}

#[test]
fn parse_needs_an_empty_line() {
    assert_eq!(parse("[A]\n 1 \nmove 1 from 1 to 1"), None);
}

#[test]
fn times_counts_from_zero() {
    assert_eq!(times(3), 0..3);
    assert_eq!(times(3).count(), 3);
    assert_eq!(times(0).count(), 0);
}
