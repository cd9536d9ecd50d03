use advent2022::day06::unique_marker;

#[test]
fn day06_part_one_test() {
    assert_eq!(
        unique_marker("mjqjpqmgbljsphdztnvjfqwrcgsmlb".as_bytes(), 4),
        7
    );
    assert_eq!(
        unique_marker("bvwbjplbgvbhsrlpgdmjqwftvncz".as_bytes(), 4),
        5
    );
    assert_eq!(
        unique_marker("nznrnfrfntjfmvfwmzdfjlvtqnbhcprsg".as_bytes(), 4),
        10
    );
    assert_eq!(
        unique_marker("zcfzfwzzqfrljwzlrfnpqdbhtmscgvjw".as_bytes(), 4),
        11
    );
}

#[test]
fn day06_part_two_test() {
    assert_eq!(
        unique_marker("mjqjpqmgbljsphdztnvjfqwrcgsmlb".as_bytes(), 14),
        19
    );
    assert_eq!(
        unique_marker("bvwbjplbgvbhsrlpgdmjqwftvncz".as_bytes(), 14),
        23
    );
    assert_eq!(
        unique_marker("nznrnfrfntjfmvfwmzdfjlvtqnbhcprsg".as_bytes(), 14),
        29
    );
}

#[test]
fn a_stream_without_a_marker_gives_zero() {
    assert_eq!(unique_marker("aaaaaaa".as_bytes(), 2), 0);
    assert_eq!(unique_marker("abc".as_bytes(), 4), 0);
    assert_eq!(unique_marker("".as_bytes(), 1), 0);
}

#[test]
fn a_marker_may_stand_at_either_end() {
    assert_eq!(unique_marker("abcd".as_bytes(), 4), 4);
    assert_eq!(unique_marker("aabcd".as_bytes(), 4), 5);
    assert_eq!(unique_marker("aab".as_bytes(), 1), 1);
    assert_eq!(unique_marker("aab".as_bytes(), 2), 3);
}
