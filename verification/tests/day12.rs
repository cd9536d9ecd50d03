use advent2022::day12::{parse, part_one, possible, GridMap, HeightMap, VisitedMap};

const HILL: &str = "Sabqponm\nabcryxxl\naccszExk\nacctuvwj\nabdefghi\n";

fn test_map() -> HeightMap {
    let input = HILL;
    parse(input).unwrap()
}

#[test]
fn day12_parse_test() {
    let h_map = test_map();
    assert_eq!(h_map.start, (0, 0));
    assert_eq!(h_map.finish, (2, 5));
}

#[test]
fn day12_part_one_test() {
    let h_map = test_map();
    let result = part_one(&h_map);
    assert_eq!(result, 31);
}

#[test]
fn the_map_has_its_shape_and_heights() {
    let h_map = test_map();
    assert_eq!(h_map.height(), 5);
    assert_eq!(h_map.width(), 8);
    assert!(h_map.on_map(&(4, 7)));
    assert!(!h_map.on_map(&(5, 0)));
    assert!(!h_map.on_map(&(0, 8)));
    assert_eq!(*h_map.val_at(&(0, 0)), b'a');
    assert_eq!(*h_map.val_at(&(2, 5)), b'z');
    assert_eq!(*h_map.val_at(&(0, 3)), b'q');
    assert_eq!(h_map.map()[0][0], b'S');
}

#[test]
fn neighbors_lie_on_the_map() {
    let h_map = test_map();
    assert_eq!(h_map.neighbors(&(0, 0)), vec![(1, 0), (0, 1)]);
    assert_eq!(h_map.neighbors(&(4, 7)), vec![(3, 7), (4, 6)]);
    assert_eq!(h_map.neighbors(&(2, 3)), vec![(3, 3), (1, 3), (2, 4), (2, 2)]);
}

#[test]
fn a_visited_map_remembers() {
    let mut visited = VisitedMap::new(2, 3);
    assert_eq!(visited.height(), 2);
    assert_eq!(visited.width(), 3);
    assert!(!visited.has_visited(&(1, 2)));
    assert!(!*visited.val_at(&(1, 2)));
    visited.visit(&(1, 2));
    assert!(visited.has_visited(&(1, 2)));
    assert!(*visited.val_at(&(1, 2)));
    assert!(!visited.has_visited(&(0, 2)));
    assert!(visited.has_visited(&(2, 0)));
    assert!(visited.has_visited(&(0, 3)));
}

#[test]
fn possible_steps_climb_one_at_most() {
    let h_map = test_map();
    let mut visited = VisitedMap::new(5, 8);
    assert_eq!(possible(&h_map, &visited, &(0, 0)), vec![(1, 0), (0, 1)]);
    assert_eq!(possible(&h_map, &visited, &(0, 2)), vec![(1, 2), (0, 1)]);
    visited.visit(&(0, 1));
    assert_eq!(possible(&h_map, &visited, &(0, 0)), vec![(1, 0)]);
    assert_eq!(possible(&h_map, &visited, &(2, 4)), vec![(3, 4), (1, 4), (2, 5), (2, 3)]);
    assert_eq!(possible(&h_map, &visited, &(2, 2)), vec![(3, 2), (1, 2), (2, 1)]);
}

#[test]
fn the_goal_at_the_start_takes_no_step() {
    let h_map = parse("ab\ncd").unwrap();
    assert_eq!(h_map.start, (0, 0));
    assert_eq!(h_map.finish, (0, 0));
    assert_eq!(part_one(&h_map), 0);
}

#[test]
fn a_goal_behind_a_wall_is_never_reached() {
    let h_map = parse("Sax\nabx\nxxE").unwrap();
    let steps = part_one(&h_map);
    assert!(steps > 2);
}

#[test]
fn the_last_mark_wins() {
    let h_map = parse("SaE\nESb").unwrap();
    assert_eq!(h_map.start, (1, 1));
    assert_eq!(h_map.finish, (1, 0));
    assert_eq!(parse("").map(|h| h.start), None);
}

#[test]
fn a_short_way_down_and_up() {
    let h_map = parse("SbcdefghijklmnopqrstuvwxyE").unwrap();
    assert_eq!(part_one(&h_map), 25);
    let h_map = parse("SzE").unwrap();
    assert!(part_one(&h_map) > 0);
    let h_map = parse("S\na\nb\nE").unwrap();
    assert!(part_one(&h_map) >= 3);
}
