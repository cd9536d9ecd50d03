use advent2022::day04::{
    contained_count, fully_contained, overlap, overlap_count, parse, WorkerPair,
};

fn worker_pairs() -> Vec<WorkerPair> {
    vec![
        ((2, 4), (6, 8)),
        ((2, 3), (4, 5)),
        ((5, 7), (7, 9)),
        ((2, 8), (3, 7)),
        ((6, 6), (4, 6)),
        ((2, 6), (4, 8)),
    ]
}

#[test]
fn day04_parse_test() {
    let input = "2-4,6-8\n2-3,4-5\n5-7,7-9\n2-8,3-7\n6-6,4-6\n2-6,4-8\n";
    let result = parse(input).unwrap();
    let expected = worker_pairs();

    assert_eq!(result, expected);
}

#[test]
fn contained_count_test() {
    let wp = worker_pairs();
    let result = contained_count(wp.as_slice());

    assert_eq!(result, 2);
}

#[test]
fn overlap_count_test() {
    let wp = worker_pairs();
    let result = overlap_count(wp.as_slice());

    assert_eq!(result, 4);
}

#[test]
fn fully_contained_examples() {
    assert!(fully_contained(((2, 8), (3, 7))));
    assert!(fully_contained(((6, 6), (4, 6))));
    assert!(fully_contained(((3, 3), (3, 3))));
    assert!(!fully_contained(((2, 4), (6, 8))));
    assert!(!fully_contained(((2, 6), (4, 8))));
}

#[test]
fn overlap_examples() {
    assert!(overlap(((5, 7), (7, 9))));
    assert!(overlap(((2, 8), (3, 7))));
    assert!(overlap(((3, 7), (2, 8))));
    assert!(!overlap(((2, 3), (4, 5))));
    assert!(!overlap(((4, 5), (2, 3))));
}

#[test]
fn parse_rejects_lines_that_are_no_pairs() {
    assert_eq!(parse("2-4\n"), None);
    assert_eq!(parse("2-4,6\n"), None);
    assert_eq!(parse("2-4,6-x\n"), None);
    assert_eq!(parse("2-4,6-8,zz\n"), None);
    assert_eq!(parse("\n"), None);
    assert_eq!(parse(""), Some(vec![]));
}

#[test]
fn parse_takes_the_first_two_of_more() {
    assert_eq!(parse("1-2-3,4-5,6-7"), Some(vec![((1, 2), (4, 5))]));
    assert_eq!(parse("+1-2,4-5\r\n"), Some(vec![((1, 2), (4, 5))]));
}

#[test]
fn counts_of_no_pairs_are_zero() {
    assert_eq!(contained_count(&[]), 0);
    assert_eq!(overlap_count(&[]), 0);
}
