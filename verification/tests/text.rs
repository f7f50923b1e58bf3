use mdslides::text::{
    bytes_eq, copy_range, count_leading, find_bytes, find_bytes_from, find_line_break, has_at,
    has_prefix, has_suffix, is_space_byte, line_at, raw_line_at, split_bytes, split_line_spans,
    split_lines, split_raw_line_spans, trim_bytes, trim_end_bytes, trim_start_bytes,
};

#[test]
fn whitespace_is_ascii_whitespace() {
    for b in [0x20u8, 0x09, 0x0a, 0x0b, 0x0c, 0x0d] {
        assert!(is_space_byte(b));
    }
    for b in [0x00u8, 0x08, 0x0e, 0x1f, 0x21, 0x41, 0x85, 0xa0, 0xff] {
        assert!(!is_space_byte(b));
    }
}

#[test]
fn trims_both_ends() {
    assert_eq!(trim_bytes("  a b \n".as_bytes()), "a b".as_bytes());
    assert_eq!(trim_start_bytes("  a b \n".as_bytes()), "a b \n".as_bytes());
    assert_eq!(trim_end_bytes("  a b \n".as_bytes()), "  a b".as_bytes());
    assert_eq!(trim_bytes(" \t\r\n".as_bytes()), "".as_bytes());
    assert_eq!(trim_bytes("".as_bytes()), "".as_bytes());
    assert_eq!(trim_bytes("x".as_bytes()), "x".as_bytes());
}

#[test]
fn prefix_suffix_and_equality() {
    assert!(has_prefix("abc".as_bytes(), "ab".as_bytes()));
    assert!(has_prefix("abc".as_bytes(), "".as_bytes()));
    assert!(!has_prefix("abc".as_bytes(), "bc".as_bytes()));
    assert!(!has_prefix("ab".as_bytes(), "abc".as_bytes()));
    assert!(has_suffix("abc".as_bytes(), "bc".as_bytes()));
    assert!(has_suffix("abc".as_bytes(), "".as_bytes()));
    assert!(!has_suffix("abc".as_bytes(), "ab".as_bytes()));
    assert!(!has_suffix("bc".as_bytes(), "abc".as_bytes()));
    assert!(has_at("abcd".as_bytes(), "bc".as_bytes(), 1));
    assert!(!has_at("abcd".as_bytes(), "bc".as_bytes(), 2));
    assert!(!has_at("abcd".as_bytes(), "cd".as_bytes(), 3));
    assert!(bytes_eq("abc".as_bytes(), "abc".as_bytes()));
    assert!(!bytes_eq("abc".as_bytes(), "abd".as_bytes()));
    assert!(!bytes_eq("abc".as_bytes(), "ab".as_bytes()));
    assert_eq!(copy_range("abcdef".as_bytes(), 2, 4), "cd".as_bytes());
    assert_eq!(count_leading("##a#".as_bytes(), 0x23), 2);
    assert_eq!(count_leading("".as_bytes(), 0x23), 0);
}

#[test]
fn find_gives_the_first_occurrence() {
    assert_eq!(find_bytes("a--b--c".as_bytes(), "--".as_bytes()), Some(1));
    assert_eq!(find_bytes_from("a--b--c".as_bytes(), "--".as_bytes(), 2), Some(4));
    assert_eq!(find_bytes_from("a--b--c".as_bytes(), "--".as_bytes(), 5), None);
    assert_eq!(find_bytes("abc".as_bytes(), "x".as_bytes()), None);
    assert_eq!(find_bytes("abc".as_bytes(), "abcd".as_bytes()), None);
    assert_eq!(find_bytes("abc".as_bytes(), "".as_bytes()), Some(0));
    assert_eq!(find_bytes("".as_bytes(), "".as_bytes()), Some(0));
    assert_eq!(find_bytes("aaa".as_bytes(), "aa".as_bytes()), Some(0));
}

#[test]
fn lines_end_at_line_feeds() {
    let text = "one\ntwo\r\n\nfour";
    assert_eq!(
        split_lines(text.as_bytes()),
        vec![
            "one".as_bytes().to_vec(),
            "two".as_bytes().to_vec(),
            Vec::new(),
            "four".as_bytes().to_vec(),
        ]
    );
    assert_eq!(split_line_spans(text.as_bytes()), vec![(0, 3), (4, 7), (9, 9), (10, 14)]);
    assert_eq!(find_line_break(text.as_bytes(), 4), 8);
    assert_eq!(find_line_break(text.as_bytes(), 10), 14);
    let spans = split_line_spans(text.as_bytes());
    assert_eq!(line_at(text.as_bytes(), &spans, 1), "two".as_bytes());
}

#[test]
fn a_final_line_feed_opens_no_line() {
    assert_eq!(split_lines("a\n".as_bytes()), vec!["a".as_bytes().to_vec()]);
    assert_eq!(split_lines("a\n\n".as_bytes()), vec!["a".as_bytes().to_vec(), Vec::new()]);
    assert_eq!(split_lines("".as_bytes()), Vec::<Vec<u8>>::new());
    assert_eq!(split_lines("\n".as_bytes()), vec![Vec::<u8>::new()]);
}

#[test]
fn a_carriage_return_without_line_feed_stays() {
    assert_eq!(split_lines("a\rb".as_bytes()), vec!["a\rb".as_bytes().to_vec()]);
    assert_eq!(split_lines("a\r".as_bytes()), vec!["a\r".as_bytes().to_vec()]);
    assert_eq!(split_lines("\r\n".as_bytes()), vec![Vec::<u8>::new()]);
    assert_eq!(split_lines("a\r\r\n".as_bytes()), vec!["a\r".as_bytes().to_vec()]);
}

#[test]
fn split_takes_occurrences_from_the_left() {
    assert_eq!(
        split_bytes("a, b, c".as_bytes(), ", ".as_bytes()),
        vec!["a".as_bytes().to_vec(), "b".as_bytes().to_vec(), "c".as_bytes().to_vec()]
    );
    assert_eq!(
        split_bytes("aXXXb".as_bytes(), "XX".as_bytes()),
        vec!["a".as_bytes().to_vec(), "Xb".as_bytes().to_vec()]
    );
    assert_eq!(split_bytes("XX".as_bytes(), "XX".as_bytes()), vec![Vec::<u8>::new(), Vec::new()]);
    assert_eq!(split_bytes("abc".as_bytes(), "".as_bytes()), vec!["abc".as_bytes().to_vec()]);
    assert_eq!(split_bytes("".as_bytes(), "X".as_bytes()), vec![Vec::<u8>::new()]);
}

#[test]
fn raw_lines_keep_their_carriage_returns() {
    let text = "one\ntwo\r\n\nfour";
    let spans = split_raw_line_spans(text.as_bytes());
    assert_eq!(spans, vec![(0, 3), (4, 8), (9, 9), (10, 14)]);
    assert_eq!(raw_line_at(text.as_bytes(), &spans, 1), "two\r".as_bytes());
    assert_eq!(split_raw_line_spans("a\n".as_bytes()), vec![(0, 1)]);
    assert_eq!(split_raw_line_spans("".as_bytes()), Vec::new());
}
