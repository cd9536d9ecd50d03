use advent2022::alt::day03 as alt;
use advent2022::day03::{
    common_item, find_badge, holds, least, letter, parse, part_one, part_two, priority, Rucksack,
};

fn test_rucksacks() -> Vec<Rucksack> {
    vec![
        Rucksack(
            "vJrwpWtwJgWr".chars().collect(),
            "hcsFMMfFFhFp".chars().collect(),
        ),
        Rucksack(
            "jqHRNqRjqzjGDLGL".chars().collect(),
            "rsFMfFZSrLrFZsSL".chars().collect(),
        ),
        Rucksack("PmmdzqPrV".chars().collect(), "vPwwTWBwg".chars().collect()),
        Rucksack(
            "wMqvLMZHhHMvwLH".chars().collect(),
            "jbvcjnnSBnvTQFn".chars().collect(),
        ),
        Rucksack("ttgJtRGJ".chars().collect(), "QctTZtZT".chars().collect()),
        Rucksack(
            "CrZsJsPPZsGz".chars().collect(),
            "wwsLwLmpwMDw".chars().collect(),
        ),
    ]
}

const PACKING_LIST: &str = "vJrwpWtwJgWrhcsFMMfFFhFp\njqHRNqRjqzjGDLGLrsFMfFZSrLrFZsSL\nPmmdzqPrVvPwwTWBwg\nwMqvLMZHhHMvwLHjbvcjnnSBnvTQFn\nttgJtRGJQctTZtZT\nCrZsJsPPZsGzwwsLwLmpwMDw\n";

#[test]
fn day03_parse_test() {
    let input = PACKING_LIST;
    let result = parse(input).unwrap();
    let expected = test_rucksacks();

    assert_eq!(result, expected);
}

#[test]
fn day03_common_item_test() {
    let expected: Vec<char> = "pLPvts".chars().collect();
    let result: Vec<char> = test_rucksacks()
        .iter()
        .map(|r| r.common_item().unwrap())
        .collect();

    assert_eq!(result, expected);
}

#[test]
fn day03_priority_test() {
    //16 (p), 38 (L), 42 (P), 22 (v), 20 (t), and 19 (s)
    assert_eq!(priority('p'), 16);
    assert_eq!(priority('L'), 38);
    assert_eq!(priority('P'), 42);
    assert_eq!(priority('v'), 22);
    assert_eq!(priority('t'), 20);
    assert_eq!(priority('s'), 19);
}

#[test]
fn common_items_priority_sum_test() {
    let rucksacks = test_rucksacks();
    let result = part_one(rucksacks).unwrap();
    assert_eq!(result, 157);
}

#[test]
fn day03_part_two_test() {
    let rucksacks = test_rucksacks();
    let result = part_two(rucksacks).unwrap();
    assert_eq!(result, 70);
}

#[test]
fn priorities_at_the_ends_of_the_alphabet() {
    assert_eq!(priority('a'), 1);
    assert_eq!(priority('z'), 26);
    assert_eq!(priority('A'), 27);
    assert_eq!(priority('Z'), 52);
    assert_eq!(alt::priority('a'), 1);
    assert_eq!(alt::priority('z'), 26);
    assert_eq!(alt::priority('A'), 27);
    assert_eq!(alt::priority('Z'), 52);
    assert_eq!(alt::priority('['), 53);
}

#[test]
fn group_badges() {
    let rucksacks = test_rucksacks();
    assert_eq!(common_item(&rucksacks[0..3]), 'r');
    assert_eq!(common_item(&rucksacks[3..6]), 'Z');
    assert_eq!(alt::common_item(&rucksacks[0..3]), Some('r'));
    assert_eq!(alt::common_item(&rucksacks[3..6]), Some('Z'));
    assert_eq!(find_badge(&rucksacks[0..6]), None);
    assert_eq!(alt::common_item(&rucksacks[0..6]), None);
    assert_eq!(alt::common_item(&[]), None);
}

#[test]
fn the_badge_is_the_least_shared_item() {
    let group = vec![
        Rucksack("zb".chars().collect(), "a".chars().collect()),
        Rucksack("abz".chars().collect(), "q".chars().collect()),
        Rucksack("z".chars().collect(), "ba".chars().collect()),
    ];
    assert_eq!(common_item(&group), 'a');
    assert_eq!(alt::common_item(&group), Some('a'));
}

#[test]
fn the_smallest_rucksack_need_not_come_first() {
    let group = vec![
        Rucksack("abcdefg".chars().collect(), "hij".chars().collect()),
        Rucksack("j".chars().collect(), "c".chars().collect()),
        Rucksack("cx".chars().collect(), "yj".chars().collect()),
    ];
    assert_eq!(alt::common_item(&group), Some('c'));
    assert_eq!(common_item(&group), 'c');
}

#[test]
fn unique_items_keep_the_first_place_of_each() {
    let r = Rucksack("abca".chars().collect(), "cbd".chars().collect());
    assert_eq!(r.unique_items(), vec!['a', 'b', 'c', 'd']);
}

#[test]
fn rucksack_helpers() {
    let a: Vec<char> = "hello".chars().collect();
    assert_eq!(least(&a), Some('e'));
    assert_eq!(least(&vec![]), None);
    assert!(holds(&a, 'o'));
    assert!(!holds(&a, 'w'));
    assert!(letter('q') && letter('Q'));
    assert!(!letter('1') && !letter('[') && !letter('é'));
}

#[test]
fn a_rucksack_without_a_shared_letter_gives_no_sum() {
    let none = vec![Rucksack("ab".chars().collect(), "cd".chars().collect())];
    assert_eq!(part_one(none.clone()), None);
    assert_eq!(alt::part_one(&none), None);
    let digit = vec![Rucksack("a1".chars().collect(), "1b".chars().collect())];
    assert_eq!(part_one(digit.clone()), None);
    assert_eq!(alt::part_one(&digit), None);
    assert_eq!(part_two(digit.clone()), None);
    assert_eq!(part_one(vec![]), Some(0));
    assert_eq!(part_two(vec![]), Some(0));
}

#[test]
fn from_input_cuts_a_line_in_the_middle() {
    let r = Rucksack::from_input("abcde");
    assert_eq!(r, Rucksack(vec!['a', 'b'], vec!['c', 'd', 'e']));
    assert_eq!(parse("ab\n\ncd"), Some(vec![
        Rucksack(vec!['a'], vec!['b']),
        Rucksack(vec![], vec![]),
        Rucksack(vec!['c'], vec!['d']),
    ]));
}
