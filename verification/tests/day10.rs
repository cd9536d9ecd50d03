use advent2022::alt::day10 as alt;
use advent2022::day10::{Cpu, Instruction};

const PROGRAM: &str = "addx 15\naddx -11\naddx 6\naddx -3\naddx 5\naddx -1\naddx -8\naddx 13\naddx 4\nnoop\naddx -1\naddx 5\naddx -1\naddx 5\naddx -1\naddx 5\naddx -1\naddx 5\naddx -1\naddx -35\naddx 1\naddx 24\naddx -19\naddx 1\naddx 16\naddx -11\nnoop\nnoop\naddx 21\naddx -15\nnoop\nnoop\naddx -3\naddx 9\naddx 1\naddx -3\naddx 8\naddx 1\naddx 5\nnoop\nnoop\nnoop\nnoop\nnoop\naddx -36\nnoop\naddx 1\naddx 7\nnoop\nnoop\nnoop\naddx 2\naddx 6\nnoop\nnoop\nnoop\nnoop\nnoop\naddx 1\nnoop\nnoop\naddx 7\naddx 1\nnoop\naddx -13\naddx 13\naddx 7\nnoop\naddx 1\naddx -33\nnoop\nnoop\nnoop\naddx 2\nnoop\nnoop\nnoop\naddx 8\nnoop\naddx -1\naddx 2\naddx 1\nnoop\naddx 17\naddx -9\naddx 1\naddx 1\naddx -3\naddx 11\nnoop\nnoop\naddx 1\nnoop\naddx 1\nnoop\nnoop\naddx -13\naddx -19\naddx 1\naddx 3\naddx 26\naddx -30\naddx 12\naddx -1\naddx 3\naddx 1\nnoop\nnoop\nnoop\naddx -9\naddx 18\naddx 1\naddx 2\nnoop\nnoop\naddx 9\nnoop\nnoop\nnoop\naddx -1\naddx 2\naddx -37\naddx 1\naddx 3\nnoop\naddx 15\naddx -21\naddx 22\naddx -6\naddx 1\nnoop\naddx 2\naddx 1\nnoop\naddx -10\nnoop\nnoop\naddx 20\naddx 1\naddx 2\naddx 2\naddx -6\naddx -11\nnoop\nnoop\nnoop\n";

const PICTURE: &str = "##..##..##..##..##..##..##..##..##..##..\n###...###...###...###...###...###...###.\n####....####....####....####....####....\n#####.....#####.....#####.....#####.....\n######......######......######......####\n#######.......#######.......#######.....\n";

fn test_instructions() -> Vec<alt::Instruction> {
    let input = PROGRAM;
    alt::parse(input).unwrap()
}

#[test]
fn day10_small_program_example() {
    let mut cpu = Cpu::new(vec![
        Instruction::Noop,
        Instruction::Addx(3),
        Instruction::Addx(-5),
    ]);

    assert_eq!(cpu.register, 1);

    //noop
    cpu.tick();
    assert_eq!(cpu.register, 1);

    //addx 3
    cpu.tick();
    assert_eq!(cpu.register, 1);
    cpu.tick();
    assert_eq!(cpu.register, 4);

    //addx -5
    cpu.tick();
    assert_eq!(cpu.register, 4);
    cpu.tick();
    assert_eq!(cpu.register, -1);
}

#[test]
fn small_program_example() {
    let mut cpu = alt::Cpu::new(
        vec![
            alt::Instruction::Noop,
            alt::Instruction::Addx(3),
            alt::Instruction::Addx(-5),
        ]
        .as_slice(),
    );

    assert_eq!(cpu.register, 1);

    //noop
    cpu.tick();
    assert_eq!(cpu.register, 1);

    //addx 3
    cpu.tick();
    assert_eq!(cpu.register, 1);
    cpu.tick();
    assert_eq!(cpu.register, 4);

    //addx -5
    cpu.tick();
    assert_eq!(cpu.register, 4);
    cpu.tick();
    assert_eq!(cpu.register, -1);
}

#[test]
fn advance_to_test() {
    let mut cpu = alt::Cpu::new(test_instructions().as_slice());

    cpu.advance_to(20);
    assert_eq!(cpu.signal_strength(), 420);

    cpu.advance_to(60);
    assert_eq!(cpu.signal_strength(), 1140);

    cpu.advance_to(100);
    assert_eq!(cpu.signal_strength(), 1800);

    cpu.advance_to(140);
    assert_eq!(cpu.signal_strength(), 2940);

    cpu.advance_to(180);
    assert_eq!(cpu.signal_strength(), 2880);

    cpu.advance_to(220);
    assert_eq!(cpu.signal_strength(), 3960);
    assert_eq!(cpu.cycle, 220);
}

#[test]
fn day10_part_one_test() {
    let result = alt::part_one(test_instructions().as_slice());
    assert_eq!(result, 13140);
}

#[test]
fn day10_part_two_test() {
    let result = alt::part_two(test_instructions().as_slice());
    let expected = PICTURE;

    assert_eq!(result, expected);
}

#[test]
fn cycles_are_counted() {
    let mut cpu = Cpu::new(vec![Instruction::Addx(2)]);
    assert_eq!(cpu.cycle, 0);
    cpu.tick();
    cpu.tick();
    cpu.tick();
    assert_eq!(cpu.cycle, 3);
    assert_eq!(cpu.register, 3);
    assert!(cpu.instructions.is_empty());
    assert!(cpu.tick_queue.is_empty());

    let mut cpu = alt::Cpu::new(&[alt::Instruction::Addx(2)]);
    assert_eq!(cpu.cycle, 1);
    cpu.advance_to(1);
    assert_eq!(cpu.cycle, 1);
    cpu.advance_to(0);
    assert_eq!(cpu.cycle, 1);
    cpu.advance_to(5);
    assert_eq!(cpu.cycle, 5);
    assert_eq!(cpu.register, 3);
    assert_eq!(cpu.signal_strength(), 15);
}

#[test]
fn the_sprite_is_three_pixels_wide() {
    let mut cpu = alt::Cpu::new(&[alt::Instruction::Addx(5), alt::Instruction::Noop]);
    assert!(cpu.sprite_visible());
    cpu.tick();
    assert!(cpu.sprite_visible());
    cpu.tick();
    assert_eq!(cpu.register, 6);
    assert!(!cpu.sprite_visible());
    cpu.advance_to(6);
    assert!(cpu.sprite_visible());
    cpu.advance_to(8);
    assert!(cpu.sprite_visible());
    cpu.advance_to(9);
    assert!(!cpu.sprite_visible());
    cpu.advance_to(46);
    assert!(cpu.sprite_visible());
}

#[test]
fn a_program_of_nothing_draws_the_sprite_at_the_left() {
    let row = "###.....................................\n";
    assert_eq!(alt::part_two(&[]), row.repeat(6));
    assert_eq!(alt::part_one(&[]), 20 + 60 + 100 + 140 + 180 + 220);
}

#[test]
fn parse_reads_instructions() {
    assert_eq!(
        alt::parse("noop\naddx 3\naddx -5\nnoop 7\naddx +2"),
        Some(vec![
            alt::Instruction::Noop,
            alt::Instruction::Addx(3),
            alt::Instruction::Addx(-5),
            alt::Instruction::Noop,
            alt::Instruction::Addx(2),
        ])
    );
    assert_eq!(alt::parse("addx\n"), None);
    assert_eq!(alt::parse("addx x\n"), None);
    assert_eq!(alt::parse("jump 3\n"), None);
    assert_eq!(alt::parse("\n"), None);
    assert_eq!(alt::parse(""), Some(vec![]));
}
