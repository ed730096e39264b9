use ministat::text::{next_line, parse_i32, parse_i64, parse_lines_i32, parse_lines_i64};

fn p64(s: &str) -> Option<i64> {
    parse_i64(s.as_bytes(), 0, s.len())
}

fn p32(s: &str) -> Option<i32> {
    parse_i32(s.as_bytes(), 0, s.len())
}

#[test]
fn parse_i64_agrees_with_from_str() {
    let cases = [
        "0", "42", "+42", "-42", "-0", "007", "", "+", "-", "--1", "+-1", " 1", "1 ", "1a", "a1",
        "9223372036854775807", "9223372036854775808", "-9223372036854775808",
        "-9223372036854775809", "00000000000000000000000000001", "99999999999999999999999",
        "1\r", "١",
    ];
    for c in cases.iter() {
        assert_eq!(p64(c), c.parse::<i64>().ok(), "case {:?}", c);
    }
}

#[test]
fn parse_i32_agrees_with_from_str() {
    let cases = [
        "0", "2147483647", "2147483648", "-2147483648", "-2147483649", "+17", "x", "",
    ];
    for c in cases.iter() {
        assert_eq!(p32(c), c.parse::<i32>().ok(), "case {:?}", c);
    }
}

#[test]
fn parse_window_of_a_buffer() {
    let buf = b"xx-15yy";
    assert_eq!(parse_i64(buf, 2, 5), Some(-15));
    assert_eq!(parse_i64(buf, 2, 6), None);
}

#[test]
fn lines_split_like_str_lines() {
    let texts = [
        "1\n2\n3", "1\n2\n3\n", "1\r\n2\r\n", "\n\n5\n", "", "\n", "7\r", "a\nb\n-3\n+4",
        "12\r\r\n13", "x\ry\n5",
    ];
    for t in texts.iter() {
        let expected: Vec<i64> = t.lines().filter_map(|l| l.parse::<i64>().ok()).collect();
        assert_eq!(parse_lines_i64(t.as_bytes()), expected, "text {:?}", t);
        let expected32: Vec<i32> = t.lines().filter_map(|l| l.parse::<i32>().ok()).collect();
        assert_eq!(parse_lines_i32(t.as_bytes()), expected32, "text {:?}", t);
    }
}

#[test]
fn parse_lines_skips_bad_lines_and_keeps_order() {
    let text = b"5\nfoo\n-2\n\n99999999999\n3\n";
    assert_eq!(parse_lines_i64(text), vec![5, -2, 99999999999, 3]);
    assert_eq!(parse_lines_i32(text), vec![5, -2, 3]);
}

#[test]
fn next_line_finds_content_and_next_start() {
    let text = b"ab\r\ncd\nef";
    assert_eq!(next_line(text, 0), (2, 4));
    assert_eq!(next_line(text, 4), (6, 7));
    assert_eq!(next_line(text, 7), (9, 9));
}
