use advent2022::day07::{
    all_dirs, parse, part_one, part_two, process, select_smallest_at_least,
    select_under_threshold, Entry, FSType, Instruction, NavigationError, NoCandidateError, Node,
    Tree,
};

fn input_fixture() -> Vec<Instruction<'static>> {
    vec![
        Instruction::CD("/"),
        Instruction::LS(vec![
            Entry::Dir("a"),
            Entry::File("b.txt", 14848514),
            Entry::File("c.dat", 8504156),
            Entry::Dir("d"),
        ]),
        Instruction::CD("a"),
        Instruction::LS(vec![
            Entry::Dir("e"),
            Entry::File("f", 29116),
            Entry::File("g", 2557),
            Entry::File("h.lst", 62596),
        ]),
        Instruction::CD("e"),
        Instruction::LS(vec![Entry::File("i", 584)]),
        Instruction::CD(".."),
        Instruction::CD(".."),
        Instruction::CD("d"),
        Instruction::LS(vec![
            Entry::File("j", 4060174),
            Entry::File("d.log", 8033020),
            Entry::File("d.ext", 5626152),
            Entry::File("k", 7214296),
        ]),
    ]
}

const TRANSCRIPT: &str = "$ cd /\n$ ls\ndir a\n14848514 b.txt\n8504156 c.dat\ndir d\n$ cd a\n$ ls\ndir e\n29116 f\n2557 g\n62596 h.lst\n$ cd e\n$ ls\n584 i\n$ cd ..\n$ cd ..\n$ cd d\n$ ls\n4060174 j\n8033020 d.log\n5626152 d.ext\n7214296 k\n";

fn size_named(tree: &Tree, name: &str) -> u128 {
    let id = (0..tree.len()).find(|id| tree.node(*id).name == name).unwrap();
    tree.fs_size(id)
}

#[test]
fn day07_parse_test() {
    let input = TRANSCRIPT;
    let result = parse(input).unwrap();
    let expected = input_fixture();

    assert_eq!(result, expected);
}

#[test]
fn fs_size_test() {
    let root = process(input_fixture()).unwrap();
    let root_size = root.fs_size(root.root());

    assert_eq!(root_size, 48381165)
}

#[test]
fn all_dirs_test() {
    let root = process(input_fixture()).unwrap();
    let dirs = all_dirs(&root);
    assert!(dirs.contains(&root.root()));

    let mut dir_names: Vec<&str> = dirs
        .iter()
        .filter(|dir| **dir != root.root())
        .map(|dir| root.node(*dir).name)
        .collect();
    dir_names.sort();

    assert_eq!(dir_names, vec!["a", "d", "e"])
}

#[test]
fn day07_part_one_test() {
    let root = process(input_fixture()).unwrap();
    let res = part_one(&root);

    assert_eq!(res, 95437)
}

#[test]
fn day07_part_two_test() {
    let root = process(input_fixture()).unwrap();
    let res = part_two(&root);

    assert_eq!(res, 24933642)
}

#[test]
fn sizes_of_the_directories_of_the_small_tree() {
    let tree = process(input_fixture()).unwrap();
    assert_eq!(size_named(&tree, "a"), 94853);
    assert_eq!(size_named(&tree, "d"), 24933642);
    assert_eq!(size_named(&tree, "e"), 584);
    assert_eq!(size_named(&tree, "/"), 48381165);
    assert_eq!(size_named(&tree, "b.txt"), 14848514);
    assert_eq!(select_under_threshold(&tree, 100000), 95437);
    assert_eq!(
        select_smallest_at_least(&tree, 30000000 - (70000000 - 48381165)),
        Ok(24933642)
    );
}

#[test]
fn all_dirs_names_every_directory_once() {
    let tree = process(input_fixture()).unwrap();
    let dirs = all_dirs(&tree);
    let expected: Vec<usize> = (0..tree.len())
        .filter(|id| tree.node(*id).fs_type == FSType::Dir)
        .collect();
    let mut sorted = dirs.clone();
    sorted.sort();
    sorted.dedup();
    assert_eq!(sorted.len(), dirs.len());
    assert_eq!(sorted, expected);
    assert_eq!(dirs.len(), 4);
}

#[test]
fn the_size_of_a_directory_is_the_sum_of_its_children() {
    let tree = process(input_fixture()).unwrap();
    let mut files: u128 = 0;
    for id in 0..tree.len() {
        let node = tree.node(id);
        match node.fs_type {
            FSType::Dir => {
                let sum: u128 = node.children.iter().map(|c| tree.fs_size(*c)).sum();
                assert_eq!(tree.fs_size(id), sum);
            }
            FSType::File => {
                assert_eq!(tree.fs_size(id), node.fs_size as u128);
                files += node.fs_size as u128;
            }
        }
    }
    assert_eq!(tree.fs_size(tree.root()), files);
}

#[test]
fn every_node_but_the_root_is_listed_once_by_its_parent() {
    let tree = process(input_fixture()).unwrap();
    assert_eq!(tree.node(tree.root()).parent, None);
    for id in 1..tree.len() {
        let parent = tree.node(id).parent.unwrap();
        assert!(parent < id);
        assert_eq!(tree.node(parent).fs_type, FSType::Dir);
        let times = tree.node(parent).children.iter().filter(|c| **c == id).count();
        assert_eq!(times, 1);
    }
}

#[test]
fn listing_twice_is_listing_once() {
    let listing = || {
        Instruction::LS(vec![
            Entry::Dir("a"),
            Entry::File("b.txt", 14848514),
            Entry::File("c.dat", 8504156),
        ])
    };
    let once = process(vec![Instruction::CD("/"), listing()]).unwrap();
    let twice = process(vec![Instruction::CD("/"), listing(), listing()]).unwrap();
    assert_eq!(once.len(), 4);
    assert_eq!(twice.len(), once.len());
    for id in 0..once.len() {
        assert_eq!(once.node(id).name, twice.node(id).name);
        assert_eq!(once.node(id).children, twice.node(id).children);
        assert_eq!(once.fs_size(id), twice.fs_size(id));
    }
}

#[test]
fn the_first_listing_of_a_name_wins() {
    let tree = process(vec![
        Instruction::LS(vec![Entry::File("x", 5), Entry::Dir("y")]),
        Instruction::LS(vec![Entry::File("x", 7), Entry::File("y", 9), Entry::Dir("x")]),
    ])
    .unwrap();
    assert_eq!(tree.len(), 3);
    assert_eq!(tree.fs_size(tree.root()), 5);
    assert_eq!(tree.node(2).fs_type, FSType::Dir);
}

#[test]
fn names_may_repeat_in_different_directories() {
    let tree = process(vec![
        Instruction::LS(vec![Entry::Dir("a"), Entry::File("f", 1)]),
        Instruction::CD("a"),
        Instruction::LS(vec![Entry::Dir("a"), Entry::File("f", 2)]),
        Instruction::CD("a"),
        Instruction::LS(vec![Entry::File("f", 4)]),
    ])
    .unwrap();
    assert_eq!(tree.len(), 6);
    assert_eq!(tree.fs_size(tree.root()), 7);
    assert_eq!(select_under_threshold(&tree, 6), 10);
}

#[test]
fn a_change_to_a_name_never_listed_fails() {
    let result = process(vec![Instruction::CD("/"), Instruction::CD("nowhere")]);
    assert_eq!(result.err(), Some(NavigationError::NoSuchDirectory));
    let result = process(vec![
        Instruction::LS(vec![Entry::Dir("a")]),
        Instruction::CD("a"),
        Instruction::CD("a"),
        Instruction::LS(vec![Entry::Dir("b")]),
    ]);
    assert_eq!(result.err(), Some(NavigationError::NoSuchDirectory));
}

#[test]
fn a_change_into_a_file_fails() {
    let result = process(vec![
        Instruction::LS(vec![Entry::File("a", 3)]),
        Instruction::CD("a"),
    ]);
    assert_eq!(result.err(), Some(NavigationError::NoSuchDirectory));
}

#[test]
fn ascending_past_the_root_fails() {
    let result = process(vec![Instruction::CD("..")]);
    assert_eq!(result.err(), Some(NavigationError::NoParent));
    let result = process(vec![
        Instruction::LS(vec![Entry::Dir("a")]),
        Instruction::CD("a"),
        Instruction::CD(".."),
        Instruction::CD(".."),
    ]);
    assert_eq!(result.err(), Some(NavigationError::NoParent));
}

#[test]
fn the_root_marker_leads_back_from_anywhere() {
    let tree = process(vec![
        Instruction::LS(vec![Entry::Dir("a")]),
        Instruction::CD("a"),
        Instruction::LS(vec![Entry::Dir("b")]),
        Instruction::CD("b"),
        Instruction::CD("/"),
        Instruction::LS(vec![Entry::File("top", 11)]),
    ])
    .unwrap();
    let top = (0..tree.len()).find(|id| tree.node(*id).name == "top").unwrap();
    assert_eq!(tree.node(top).parent, Some(tree.root()));
}

#[test]
fn an_empty_transcript_builds_the_bare_root() {
    let tree = process(vec![]).unwrap();
    assert_eq!(tree.len(), 1);
    assert_eq!(tree.node(0).name, "/");
    assert_eq!(tree.fs_size(0), 0);
    assert_eq!(all_dirs(&tree), vec![0]);
    assert_eq!(select_under_threshold(&tree, 0), 0);
    assert_eq!(select_smallest_at_least(&tree, 0), Ok(0));
    assert_eq!(select_smallest_at_least(&tree, 1), Err(NoCandidateError));
}

#[test]
fn the_total_under_a_threshold_grows_with_the_threshold() {
    let tree = process(input_fixture()).unwrap();
    let thresholds = [0, 583, 584, 585, 94852, 94853, 100000, 24933642, 48381164, 48381165, usize::MAX];
    let totals: Vec<u128> = thresholds.iter().map(|t| select_under_threshold(&tree, *t)).collect();
    for pair in totals.windows(2) {
        assert!(pair[0] <= pair[1]);
    }
    assert_eq!(totals[0], 0);
    assert_eq!(totals[2], 584);
    assert_eq!(totals[5], 95437);
    assert_eq!(totals[7], 95437 + 24933642);
    assert_eq!(totals[9], 95437 + 24933642 + 48381165);
}

#[test]
fn the_smallest_directory_that_reaches_a_size() {
    let tree = process(input_fixture()).unwrap();
    assert_eq!(select_smallest_at_least(&tree, 0), Ok(584));
    assert_eq!(select_smallest_at_least(&tree, 585), Ok(94853));
    assert_eq!(select_smallest_at_least(&tree, 94854), Ok(24933642));
    assert_eq!(select_smallest_at_least(&tree, 24933643), Ok(48381165));
    assert_eq!(select_smallest_at_least(&tree, 48381165), Ok(48381165));
    assert_eq!(select_smallest_at_least(&tree, 48381166), Err(NoCandidateError));
}

#[test]
fn a_new_node_stands_alone() {
    let node = Node::new("x", FSType::File);
    assert_eq!(node.name, "x");
    assert_eq!(node.fs_type, FSType::File);
    assert_eq!(node.fs_size, 0);
    assert_eq!(node.parent, None);
    assert!(node.children.is_empty());
}

#[test]
fn parse_reads_what_stands_before_the_first_command_as_the_root() {
    assert_eq!(parse("anything"), Some(vec![Instruction::CD("/")]));
    assert_eq!(parse(""), Some(vec![Instruction::CD("/")]));
    assert_eq!(
        parse("$ cd /\n$ cd x y\n$ ls"),
        Some(vec![Instruction::CD("/"), Instruction::CD("x y"), Instruction::LS(vec![])])
    );
}

#[test]
fn parse_rejects_commands_and_lines_it_cannot_read() {
    assert_eq!(parse("$ cd /\n$ c"), None);
    assert_eq!(parse("$ cd /\n$ cd"), None);
    assert_eq!(parse("$ cd /\n$ ls\nnospace"), None);
    assert_eq!(parse("$ cd /\n$ ls\nabc name"), None);
    assert_eq!(parse("$ cd /\n$ ls\n99999999999999999999999 big"), None);
}

#[test]
fn parse_then_process_then_ask() {
    let tree = process(parse(TRANSCRIPT).unwrap()).unwrap();
    assert_eq!(part_one(&tree), 95437);
    assert_eq!(part_two(&tree), 24933642);
}
