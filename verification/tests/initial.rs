use tail::initial::{forward_tail, initial_lines, parse_line_count, parse_number, LineCount};

fn owned(lines: &[&[u8]]) -> Vec<Vec<u8>> {
    lines.iter().map(|line| line.to_vec()).collect()
}

#[test]
fn plain_number_counts_from_the_end() {
    assert_eq!(parse_line_count("10"), Some(LineCount::FromEnd(10)));
    assert_eq!(parse_line_count("0"), Some(LineCount::FromEnd(0)));
    assert_eq!(parse_line_count("007"), Some(LineCount::FromEnd(7)));
}

#[test]
fn plus_and_number_skips_lines() {
    assert_eq!(parse_line_count("+5"), Some(LineCount::SkipFirst(5)));
    assert_eq!(parse_line_count("+0"), Some(LineCount::SkipFirst(0)));
    assert_eq!(parse_line_count("++5"), Some(LineCount::SkipFirst(5)));
}

#[test]
fn malformed_counts() {
    for arg in ["", "+", "++", "+++5", "abc", "-1", "1a", "a1", " 1", "1 ", "1.5", "+-1", "٣"] {
        assert_eq!(parse_line_count(arg), None, "{:?}", arg);
    }
}

#[test]
fn counts_too_large_for_usize() {
    assert_eq!(parse_line_count("99999999999999999999999999"), None);
    assert_eq!(parse_line_count("+99999999999999999999999999"), None);
    let max = format!("{}", usize::MAX);
    assert_eq!(parse_line_count(&max), Some(LineCount::FromEnd(usize::MAX)));
    let over = format!("{}0", usize::MAX);
    assert_eq!(parse_line_count(&over), None);
    let mut next = format!("{}", usize::MAX).into_bytes();
    let last = next.len() - 1;
    next[last] += 1;
    assert_eq!(parse_number(&next), None);
}

#[test]
fn parse_number_agrees_with_the_standard_library() {
    for arg in ["0", "1", "+1", "42", "+042", "", "+", "-", "-0", "++1", "12x", "4294967296"] {
        assert_eq!(parse_number(arg.as_bytes()), arg.parse::<usize>().ok(), "{:?}", arg);
    }
}

#[test]
fn skip_first_lines() {
    let content = b"a\nb\nc\nd";
    assert_eq!(
        initial_lines(content, LineCount::SkipFirst(0)),
        owned(&[b"a\n", b"b\n", b"c\n", b"d\n"])
    );
    assert_eq!(initial_lines(content, LineCount::SkipFirst(3)), owned(&[b"d\n"]));
    assert_eq!(initial_lines(content, LineCount::SkipFirst(4)), Vec::<Vec<u8>>::new());
    assert_eq!(initial_lines(content, LineCount::SkipFirst(9)), Vec::<Vec<u8>>::new());
}

#[test]
fn from_end_with_room_to_spare() {
    let content = b"a\nb\nc\n";
    assert_eq!(
        initial_lines(content, LineCount::FromEnd(10)),
        owned(&[b"a\n", b"b\n", b"c\n"])
    );
    assert_eq!(
        initial_lines(content, LineCount::FromEnd(4)),
        owned(&[b"a\n", b"b\n", b"c\n"])
    );
    assert_eq!(initial_lines(b"", LineCount::FromEnd(0)), Vec::<Vec<u8>>::new());
    assert_eq!(initial_lines(b"", LineCount::FromEnd(3)), Vec::<Vec<u8>>::new());
}

#[test]
fn from_end_with_as_many_lines_or_more() {
    let content = b"a\nb\nc\n";
    assert_eq!(
        initial_lines(content, LineCount::FromEnd(3)),
        owned(&[b"a\n", b"b\n", b"c\n"])
    );
    assert_eq!(initial_lines(content, LineCount::FromEnd(2)), owned(&[b"b\n", b"c\n"]));
    assert_eq!(initial_lines(content, LineCount::FromEnd(1)), owned(&[b"c\n"]));
    assert_eq!(initial_lines(b"a\nb\nc", LineCount::FromEnd(2)), owned(&[b"b\n", b"c\n"]));
}

#[test]
fn from_end_with_a_count_of_zero() {
    assert_eq!(initial_lines(b"a\nb\nc\n", LineCount::FromEnd(0)), Vec::<Vec<u8>>::new());
    assert_eq!(initial_lines(b"", LineCount::FromEnd(0)), Vec::<Vec<u8>>::new());
}

#[test]
fn from_end_of_twelve_lines_with_the_usual_count() {
    let mut content = Vec::new();
    for i in 0..12 {
        content.extend_from_slice(format!("line {}\n", i).as_bytes());
    }
    let lines = initial_lines(&content, LineCount::FromEnd(10));
    assert_eq!(lines.len(), 10);
    assert_eq!(lines[0], b"line 2\n".to_vec());
    assert_eq!(lines[9], b"line 11\n".to_vec());
}

#[test]
fn forward_tail_keeps_the_last_items() {
    assert_eq!(forward_tail(vec![1, 2, 3], 4), vec![1, 2, 3]);
    assert_eq!(forward_tail(vec![1, 2, 3], 100), vec![1, 2, 3]);
    assert_eq!(forward_tail(vec![1, 2, 3], 3), vec![1, 2, 3]);
    assert_eq!(forward_tail(vec![1, 2, 3, 4, 5], 3), vec![3, 4, 5]);
    assert_eq!(forward_tail(vec![1, 2, 3, 4, 5], 1), vec![5]);
    assert_eq!(forward_tail(vec![1, 2, 3], 0), Vec::<i32>::new());
    assert_eq!(forward_tail(Vec::<u8>::new(), 0), Vec::<u8>::new());
    assert_eq!(forward_tail(Vec::<u8>::new(), 3), Vec::<u8>::new());
}
