use advent2022::day08::{parse, part_one, part_two, scenic, visible, Grid, Point};

fn input_fixture() -> Vec<Vec<u8>> {
    vec![
        vec![3, 0, 3, 7, 3],
        vec![2, 5, 5, 1, 2],
        vec![6, 5, 3, 3, 2],
        vec![3, 3, 5, 4, 9],
        vec![3, 5, 3, 9, 0],
    ]
}

#[test]
fn day08_parse_test() {
    let input = "30373\n25512\n65332\n33549\n35390\n";
    let result = parse(input).unwrap();
    let expected = input_fixture();

    assert_eq!(result, expected);
}

fn assert_visible(g: &Grid, i: usize, j: usize) {
    assert!(
        visible(&g, Point(i, j)),
        "{:?} was not visible",
        Point(i, j)
    );
}

fn assert_not_visible(g: &Grid, i: usize, j: usize) {
    assert!(!visible(&g, Point(i, j)), "{:?} was visible", Point(i, j));
}

#[test]
fn visible_test() {
    let grid = input_fixture();

    //all edges should be visible
    for (i, row) in grid.iter().enumerate() {
        for (j, _) in row.iter().enumerate() {
            if i == 0 || j == 0 || i == grid.len() - 1 || j == row.len() - 1 {
                assert_visible(&grid, i, j);
            }
        }
    }

    //specific points
    assert_visible(&grid, 1, 1);
    assert_visible(&grid, 1, 2);
    assert_not_visible(&grid, 1, 3);
    assert_visible(&grid, 2, 1);
    assert_not_visible(&grid, 2, 2);
    assert_visible(&grid, 2, 3);
    assert_not_visible(&grid, 3, 1);
    assert_visible(&grid, 3, 2);
    assert_not_visible(&grid, 3, 3);
}

#[test]
fn day08_part_one_test() {
    let grid = input_fixture();

    assert_eq!(part_one(&grid), 21);
}

#[test]
fn scenic_test() {
    let grid = input_fixture();
    let res = scenic(&grid, Point(1, 2));
    assert_eq!(res, 4);
}

#[test]
fn scenic_test_two() {
    let grid = input_fixture();
    let res = scenic(&grid, Point(3, 2));
    assert_eq!(res, 8);
}

#[test]
fn day08_part_two_test() {
    let grid = input_fixture();

    assert_eq!(part_two(&grid), 8);
}

#[test]
fn the_edge_scores_nothing() {
    let grid = input_fixture();
    assert_eq!(scenic(&grid, Point(0, 2)), 0);
    assert_eq!(scenic(&grid, Point(4, 4)), 0);
    assert_eq!(scenic(&grid, Point(2, 0)), 0);
}

#[test]
fn a_grid_of_one_tree() {
    let grid = vec![vec![5]];
    assert!(visible(&grid, Point(0, 0)));
    assert_eq!(part_one(&grid), 1);
    assert_eq!(part_two(&grid), 0);
}

#[test]
fn a_tree_among_higher_trees_is_hidden() {
    let grid = vec![vec![9, 9, 9], vec![9, 1, 9], vec![9, 9, 9]];
    assert!(!visible(&grid, Point(1, 1)));
    assert_eq!(part_one(&grid), 8);
    assert_eq!(scenic(&grid, Point(1, 1)), 1);
    let level = vec![vec![1, 1, 1], vec![1, 1, 1], vec![1, 1, 1]];
    assert!(!visible(&level, Point(1, 1)));
}

#[test]
fn parse_counts_every_byte_from_zero() {
    assert_eq!(parse("09\n:a"), Some(vec![vec![0, 9], vec![10, 49]]));
    assert_eq!(parse("12\n3 4"), None);
    assert_eq!(parse(""), Some(vec![]));
}
