use advent2022::day11::{parse, part_one, part_two, process, Monkey, Operation};

const MONKEYS: &str = "Monkey 0:\n  Starting items: 79, 98\n  Operation: new = old * 19\n  Test: divisible by 23\n    If true: throw to monkey 2\n    If false: throw to monkey 3\n\nMonkey 1:\n  Starting items: 54, 65, 75, 74\n  Operation: new = old + 6\n  Test: divisible by 19\n    If true: throw to monkey 2\n    If false: throw to monkey 0\n\nMonkey 2:\n  Starting items: 79, 60, 97\n  Operation: new = old * old\n  Test: divisible by 13\n    If true: throw to monkey 1\n    If false: throw to monkey 3\n\nMonkey 3:\n  Starting items: 74\n  Operation: new = old + 3\n  Test: divisible by 17\n    If true: throw to monkey 0\n    If false: throw to monkey 1\n";

#[test]
fn monkey_from_input_test() {
    let input = r#"Monkey 0:
            Starting items: 79, 98
            Operation: new = old * 19
            Test: divisible by 23
                If true: throw to monkey 2
                If false: throw to monkey 3
        "#;
    let monkey = Monkey::from_str_block(input).unwrap();

    assert_eq!(monkey.starting_items, vec![79, 98]);
    assert_eq!(monkey.operation, Operation::Mult(19));
    assert_eq!(monkey.div_test, 23);
    assert_eq!(monkey.throw_true, 2);
    assert_eq!(monkey.throw_false, 3);
}

#[test]
fn day11_part_one_test() {
    let input = MONKEYS;
    let monkeys = parse(input).unwrap();
    let result = part_one(monkeys.as_slice()).unwrap();

    assert_eq!(result, 10605);
}

#[test]
fn day11_part_two_test() {
    let input = MONKEYS;
    let monkeys = parse(input).unwrap();
    let result = part_two(monkeys.as_slice()).unwrap();

    assert_eq!(result, 2713310158);
}

fn monkey(operation: Operation) -> Monkey {
    Monkey { starting_items: vec![], operation, div_test: 5, throw_true: 1, throw_false: 2 }
}

#[test]
fn inspect_items_applies_each_operation() {
    assert_eq!(
        monkey(Operation::Square).inspect_items(&[5, 4], None, None),
        Some(vec![(1, 25), (2, 16)])
    );
    assert_eq!(
        monkey(Operation::Add(6)).inspect_items(&[9, 12], Some(3), None),
        Some(vec![(1, 5), (2, 6)])
    );
    assert_eq!(
        monkey(Operation::Mult(7)).inspect_items(&[5, 3], None, Some(4)),
        Some(vec![(1, 3), (2, 1)])
    );
    assert_eq!(
        monkey(Operation::Mult(10)).inspect_items(&[3], Some(2), Some(7)),
        Some(vec![(1, 1)])
    );
    assert_eq!(monkey(Operation::Square).inspect_items(&[], Some(0), Some(0)), Some(vec![]));
}

#[test]
fn inspect_items_gives_nothing_where_it_cannot_count() {
    assert_eq!(monkey(Operation::Square).inspect_items(&[u64::MAX], None, None), None);
    assert_eq!(monkey(Operation::Add(1)).inspect_items(&[u64::MAX], None, None), None);
    assert_eq!(monkey(Operation::Mult(2)).inspect_items(&[u64::MAX], None, None), None);
    assert_eq!(monkey(Operation::Add(1)).inspect_items(&[1], Some(0), None), None);
    assert_eq!(monkey(Operation::Add(1)).inspect_items(&[1], None, Some(0)), None);
    let mut no_test = monkey(Operation::Add(1));
    no_test.div_test = 0;
    assert_eq!(no_test.inspect_items(&[1], None, None), None);
}

#[test]
fn process_counts_inspections() {
    let monkeys = parse(MONKEYS).unwrap();
    assert_eq!(process(&monkeys, 0, Some(3), None), Some(0));
    assert_eq!(process(&monkeys, 1, Some(3), None), Some(5 * 4));
    assert_eq!(process(&monkeys, 1, None, Some(96577)), Some(6 * 4));
    assert_eq!(process(&monkeys, 20, None, Some(96577)), Some(103 * 99));
    assert_eq!(process(&monkeys, 1000, None, Some(96577)), Some(5204 * 5192));
}

#[test]
fn process_gives_nothing_where_a_turn_cannot_be_taken() {
    let alone = vec![Monkey {
        starting_items: vec![1],
        operation: Operation::Add(1),
        div_test: 2,
        throw_true: 0,
        throw_false: 0,
    }];
    assert_eq!(process(&alone, 1, None, None), None);
    let stray = vec![
        Monkey { starting_items: vec![1], operation: Operation::Add(1), div_test: 2, throw_true: 5, throw_false: 1 },
        Monkey { starting_items: vec![], operation: Operation::Add(1), div_test: 2, throw_true: 0, throw_false: 0 },
    ];
    assert_eq!(process(&stray, 1, None, None), None);
    assert_eq!(process(&stray, 0, None, None), Some(0));
    let growing = vec![
        Monkey { starting_items: vec![3], operation: Operation::Square, div_test: 2, throw_true: 1, throw_false: 1 },
        Monkey { starting_items: vec![], operation: Operation::Square, div_test: 2, throw_true: 0, throw_false: 0 },
    ];
    assert_eq!(process(&growing, 2, None, None), Some(2 * 2));
    assert_eq!(process(&growing, 4, None, None), None);
    assert_eq!(part_two(&growing), Some(10000 * 10000));
}

#[test]
fn a_monkey_may_throw_to_itself() {
    let monkeys = vec![
        Monkey { starting_items: vec![1, 2], operation: Operation::Add(0), div_test: 2, throw_true: 0, throw_false: 1 },
        Monkey { starting_items: vec![], operation: Operation::Add(0), div_test: 2, throw_true: 1, throw_false: 1 },
    ];
    assert_eq!(process(&monkeys, 3, None, None), Some(4 * 3));
}

#[test]
fn descriptions_that_cannot_be_read() {
    assert_eq!(Monkey::from_str_block("Monkey 0:\n  Starting items: 1\n"), None);
    let no_items = "Monkey 0:\n  Starting items: \n  Operation: new = old + 1\n  Test: divisible by 2\n    If true: throw to monkey 1\n    If false: throw to monkey 0\n";
    assert_eq!(Monkey::from_str_block(no_items), None);
    let good = "Monkey 0:\n  Starting items: 7\n  Operation: new = old *\t3 \n  Test: divisible by 2\n    If true: throw to monkey 1\n    If false: throw to monkey 0\n";
    assert_eq!(Monkey::from_str_block(good).unwrap().operation, Operation::Mult(3));
    let adds = good.replace("old *\t3 ", "3 + old + 4");
    assert_eq!(Monkey::from_str_block(&adds).unwrap().operation, Operation::Add(4));
    let squares = good.replace("old *\t3 ", "old * old");
    assert_eq!(Monkey::from_str_block(&squares).unwrap().operation, Operation::Square);
    let wordless = good.replace("old *\t3 ", "  ");
    assert_eq!(Monkey::from_str_block(&wordless), None);
    assert_eq!(parse(""), None);
}
