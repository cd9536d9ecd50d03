use advent2022::text::{
    chars_of, find, lines, matches_at, parse_i64, parse_u64, parse_usize, split, split_once,
    str_eq,
};

#[test]
fn split_cuts_at_every_pattern() {
    assert_eq!(split("a,b,,c", ","), vec!["a", "b", "", "c"]);
    assert_eq!(split("a,b,", ","), vec!["a", "b", ""]);
    assert_eq!(split("", ","), vec![""]);
    assert_eq!(split("abc", ","), vec!["abc"]);
    assert_eq!(split("a--b---c", "--"), vec!["a", "b", "-c"]);
    assert_eq!(split("é,ü", ","), vec!["é", "ü"]);
}

#[test]
fn split_once_cuts_at_the_first_pattern() {
    assert_eq!(split_once("a: b: c", ": "), Some(("a", "b: c")));
    assert_eq!(split_once(": x", ": "), Some(("", "x")));
    assert_eq!(split_once("x: ", ": "), Some(("x", "")));
    assert_eq!(split_once("abc", ": "), None);
}

#[test]
fn lines_end_at_line_feeds() {
    assert_eq!(lines("a\nb\n"), vec!["a", "b"]);
    assert_eq!(lines("a\n\nb"), vec!["a", "", "b"]);
    assert_eq!(lines("a\r\nb\r"), vec!["a", "b\r"]);
    assert_eq!(lines("\n"), vec![""]);
    assert_eq!(lines(""), Vec::<&str>::new());
    assert_eq!(lines("\r\n\r\n"), vec!["", ""]);
}

#[test]
fn numbers_are_digits_with_an_optional_sign() {
    assert_eq!(parse_usize("0"), Some(0));
    assert_eq!(parse_usize("007"), Some(7));
    assert_eq!(parse_usize("+42"), Some(42));
    assert_eq!(parse_usize(""), None);
    assert_eq!(parse_usize("+"), None);
    assert_eq!(parse_usize("-1"), None);
    assert_eq!(parse_usize("1 "), None);
    assert_eq!(parse_usize("١"), None);
    assert_eq!(parse_usize(&usize::MAX.to_string()), Some(usize::MAX));
    assert_eq!(parse_u64("18446744073709551615"), Some(u64::MAX));
    assert_eq!(parse_u64("18446744073709551616"), None);
    assert_eq!(parse_u64("98x"), None);
    assert_eq!(parse_i64("-5"), Some(-5));
    assert_eq!(parse_i64("+5"), Some(5));
    assert_eq!(parse_i64("5"), Some(5));
    assert_eq!(parse_i64("-"), None);
    assert_eq!(parse_i64("--5"), None);
    assert_eq!(parse_i64("-+5"), None);
    assert_eq!(parse_i64("9223372036854775807"), Some(i64::MAX));
    assert_eq!(parse_i64("9223372036854775808"), None);
    assert_eq!(parse_i64("-9223372036854775808"), Some(i64::MIN));
    assert_eq!(parse_i64("-9223372036854775809"), None);
}

#[test]
fn strings_compare_by_their_characters() {
    assert!(str_eq("", ""));
    assert!(str_eq("dir", "dir"));
    assert!(!str_eq("dir", "dis"));
    assert!(!str_eq("dir", "di"));
    assert_eq!(chars_of("aé"), vec!['a', 'é']);
}

#[test]
fn find_gives_the_first_place_or_the_length() {
    let s = chars_of("abcabc");
    assert_eq!(find(&s, &chars_of("bc"), 0), 1);
    assert_eq!(find(&s, &chars_of("bc"), 2), 4);
    assert_eq!(find(&s, &chars_of("bc"), 5), 6);
    assert_eq!(find(&s, &chars_of("x"), 0), 6);
    assert!(matches_at(&s, &chars_of("cab"), 2));
    assert!(!matches_at(&s, &chars_of("cab"), 3));
    assert!(!matches_at(&s, &chars_of("bcx"), 4));
}
