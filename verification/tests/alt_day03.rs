use advent2022::alt::day03::{common_item, part_one, part_two, priority};
use advent2022::day03::{parse, Rucksack};

fn test_rucksacks() -> Vec<Rucksack> {
    vec![
        Rucksack(
            "vJrwpWtwJgWr".chars().collect(),
            "hcsFMMfFFhFp".chars().collect(),
        ),
        Rucksack(
            "jqHRNqRjqzjGDLGL".chars().collect(),
            "rsFMfFZSrLrFZsSL".chars().collect(),
        ),
        Rucksack("PmmdzqPrV".chars().collect(), "vPwwTWBwg".chars().collect()),
        Rucksack(
            "wMqvLMZHhHMvwLH".chars().collect(),
            "jbvcjnnSBnvTQFn".chars().collect(),
        ),
        Rucksack("ttgJtRGJ".chars().collect(), "QctTZtZT".chars().collect()),
        Rucksack(
            "CrZsJsPPZsGz".chars().collect(),
            "wwsLwLmpwMDw".chars().collect(),
        ),
    ]
}

#[test]
fn parse_test() {
    let input = "vJrwpWtwJgWrhcsFMMfFFhFp\njqHRNqRjqzjGDLGLrsFMfFZSrLrFZsSL\nPmmdzqPrVvPwwTWBwg\nwMqvLMZHhHMvwLHjbvcjnnSBnvTQFn\nttgJtRGJQctTZtZT\nCrZsJsPPZsGzwwsLwLmpwMDw\n";
    let result = parse(input).unwrap();
    let expected = test_rucksacks();

    assert_eq!(result, expected);
}

#[test]
fn common_item_test() {
    let expected: Vec<char> = "pLPvts".chars().collect();
    let result: Vec<char> = test_rucksacks()
        .iter()
        .map(|r| r.common_item().unwrap())
        .collect();

    assert_eq!(result, expected);
}

#[test]
fn priority_test() {
    //16 (p), 38 (L), 42 (P), 22 (v), 20 (t), and 19 (s)
    assert_eq!(priority('p'), 16);
    assert_eq!(priority('L'), 38);
    assert_eq!(priority('P'), 42);
    assert_eq!(priority('v'), 22);
    assert_eq!(priority('t'), 20);
    assert_eq!(priority('s'), 19);
}

#[test]
fn day03_part_one_test() {
    let rucksacks = test_rucksacks();
    let result = part_one(rucksacks.as_slice()).unwrap();
    assert_eq!(result, 157);
}

#[test]
fn part_two_test() {
    let rucksacks = test_rucksacks();
    let result = part_two(rucksacks.as_slice()).unwrap();
    assert_eq!(result, 70);
}

#[test]
fn a_group_of_one_has_its_least_item_for_a_badge() {
    let one = vec![Rucksack("cb".chars().collect(), "a".chars().collect())];
    assert_eq!(common_item(&one), Some('a'));
    assert_eq!(part_two(&one), Some(1));
}
