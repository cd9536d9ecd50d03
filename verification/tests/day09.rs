use advent2022::day09::{mv, mv_tail, parse, part_one, part_two, tail_positions, Cmd, Direction};

fn input_fixture() -> Vec<Cmd> {
    vec![
        Cmd(Direction::Right, 4),
        Cmd(Direction::Up, 4),
        Cmd(Direction::Left, 3),
        Cmd(Direction::Down, 1),
        Cmd(Direction::Right, 4),
        Cmd(Direction::Down, 1),
        Cmd(Direction::Left, 5),
        Cmd(Direction::Right, 2),
    ]
}

#[test]
fn day09_parse_test() {
    let input = "R 4\nU 4\nL 3\nD 1\nR 4\nD 1\nL 5\nR 2\n";
    let result = parse(input).unwrap();
    let expected = input_fixture();

    assert_eq!(result, expected);
}

#[test]
fn test_movements() {
    let head = (0, 0);
    let tail = (0, 0);

    assert_eq!(tail, mv_tail(&head, tail));

    let head = mv(head, &Direction::Right);
    assert_eq!(tail, mv_tail(&head, tail));

    let head = mv(head, &Direction::Right);
    let ex_tail = mv(tail, &Direction::Right);
    assert_eq!(ex_tail, mv_tail(&head, tail));
    let tail = ex_tail;

    let head = mv(mv(head, &Direction::Left), &Direction::Up);
    assert_eq!(tail, mv_tail(&head, tail));

    let head = mv(head, &Direction::Up);
    let ex_tail = mv(tail, &Direction::Up);
    assert_eq!(ex_tail, mv_tail(&head, tail));
    let tail = ex_tail;

    //diag
    let head = mv(mv(head, &Direction::Left), &Direction::Up);
    let ex_tail = mv(mv(tail, &Direction::Left), &Direction::Up);
    assert_eq!(ex_tail, mv_tail(&head, tail));
}

#[test]
fn day09_part_one_test() {
    let cmds = input_fixture();
    let result = part_one(cmds);
    assert_eq!(result, 13);
}

#[test]
fn a_long_rope_hardly_moves_its_tail() {
    assert_eq!(part_two(input_fixture()), 1);
}

#[test]
fn a_long_rope_on_a_long_way() {
    let cmds = vec![
        Cmd(Direction::Right, 5),
        Cmd(Direction::Up, 8),
        Cmd(Direction::Left, 8),
        Cmd(Direction::Down, 3),
        Cmd(Direction::Right, 17),
        Cmd(Direction::Down, 10),
        Cmd(Direction::Left, 25),
        Cmd(Direction::Up, 20),
    ];
    assert_eq!(part_two(cmds), 36);
}

#[test]
fn single_steps() {
    assert_eq!(mv((3, -2), &Direction::Right), (4, -2));
    assert_eq!(mv((3, -2), &Direction::Left), (2, -2));
    assert_eq!(mv((3, -2), &Direction::Up), (3, -1));
    assert_eq!(mv((3, -2), &Direction::Down), (3, -3));
    assert_eq!(mv_tail(&(2, 1), (0, 0)), (1, 1));
    assert_eq!(mv_tail(&(-2, 0), (0, 0)), (-1, 0));
    assert_eq!(mv_tail(&(1, -2), (0, 0)), (1, -1));
    assert_eq!(mv_tail(&(2, 2), (0, 0)), (1, 1));
    assert_eq!(mv_tail(&(1, 1), (0, 0)), (0, 0));
}

#[test]
fn a_rope_of_one_knot_visits_what_its_head_visits() {
    let cmds = vec![Cmd(Direction::Right, 2), Cmd(Direction::Left, 2), Cmd(Direction::Up, 1)];
    assert_eq!(tail_positions(&cmds, 1), 4);
    assert_eq!(tail_positions(&vec![], 3), 1);
    assert_eq!(tail_positions(&vec![Cmd(Direction::Up, 0)], 2), 1);
}

#[test]
fn parse_rejects_lines_that_are_no_commands() {
    assert_eq!(parse("R 4\nX 1\n"), None);
    assert_eq!(parse("R4\n"), None);
    assert_eq!(parse("R four\n"), None);
    assert_eq!(parse("RR 4\n"), None);
    assert_eq!(parse(""), Some(vec![]));
}
