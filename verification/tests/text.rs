use athenna::text::bytes_eq;
use athenna::text::bytes_of;
use athenna::text::is_plain_line;
use athenna::text::line_at;
use athenna::text::line_end;
use athenna::text::parse_usize;
use athenna::text::push_bytes;
use athenna::text::push_decimal;
use athenna::text::push_line;
use athenna::text::push_number_line;

fn decimal(n: usize) -> Vec<u8> {
    let mut out = Vec::new();
    push_decimal(&mut out, n);
    out
}

#[test]
fn decimal_text_of_small_and_large_numbers() {
    assert_eq!(decimal(0), b"0");
    assert_eq!(decimal(7), b"7");
    assert_eq!(decimal(10), b"10");
    assert_eq!(decimal(305), b"305");
    assert_eq!(decimal(usize::MAX), usize::MAX.to_string().as_bytes());
}

#[test]
fn push_decimal_keeps_what_was_there() {
    let mut out = b"n=".to_vec();
    push_decimal(&mut out, 42);
    assert_eq!(out, b"n=42");
}

#[test]
fn parse_usize_reads_digits() {
    assert_eq!(parse_usize(b"0"), Some(0));
    assert_eq!(parse_usize(b"12"), Some(12));
    assert_eq!(parse_usize(b"007"), Some(7));
    assert_eq!(parse_usize(b"+5"), Some(5));
    assert_eq!(parse_usize(usize::MAX.to_string().as_bytes()), Some(usize::MAX));
}

#[test]
fn parse_usize_refuses_everything_else() {
    assert_eq!(parse_usize(b""), None);
    assert_eq!(parse_usize(b"+"), None);
    assert_eq!(parse_usize(b"-1"), None);
    assert_eq!(parse_usize(b"++1"), None);
    assert_eq!(parse_usize(b"1+"), None);
    assert_eq!(parse_usize(b" 1"), None);
    assert_eq!(parse_usize(b"1 "), None);
    assert_eq!(parse_usize(b"1.0"), None);
    assert_eq!(parse_usize(b"12a"), None);
    assert_eq!(parse_usize(b"[dims]"), None);
}

#[test]
fn parse_usize_refuses_what_does_not_fit() {
    let mut too_big = usize::MAX.to_string().into_bytes();
    too_big.push(b'0');
    assert_eq!(parse_usize(&too_big), None);
    let mut one_more = decimal(usize::MAX / 10);
    one_more.push(b'9');
    assert_eq!(parse_usize(&one_more), None);
}

#[test]
fn parse_usize_agrees_with_the_standard_library() {
    let samples: Vec<&str> = vec!["0", "1", "+1", "-0", "00", "99", "4294967296", "", "+", "\u{661}"];
    for s in samples {
        assert_eq!(parse_usize(s.as_bytes()), s.parse::<usize>().ok());
    }
}

#[test]
fn decimal_text_reads_back() {
    let samples: Vec<usize> = vec![0, 1, 9, 10, 11, 99, 100, 12345, usize::MAX - 1, usize::MAX];
    for n in samples {
        assert_eq!(parse_usize(&decimal(n)), Some(n));
    }
}

#[test]
fn bytes_eq_compares_contents() {
    assert!(bytes_eq(b"", b""));
    assert!(bytes_eq(b"abc", b"abc"));
    assert!(!bytes_eq(b"abc", b"abd"));
    assert!(!bytes_eq(b"abc", b"ab"));
    assert!(!bytes_eq(b"", b"a"));
}

#[test]
fn bytes_of_is_the_utf8_encoding() {
    assert_eq!(bytes_of("tanh"), b"tanh");
    assert_eq!(bytes_of("\u{e9}"), &[0xc3, 0xa9]);
}

#[test]
fn push_bytes_appends() {
    let mut out = b"ab".to_vec();
    push_bytes(&mut out, b"cd");
    push_bytes(&mut out, b"");
    assert_eq!(out, b"abcd");
}

#[test]
fn push_line_puts_a_line_feed_first() {
    let mut out = b"a".to_vec();
    push_line(&mut out, b"b");
    push_line(&mut out, b"");
    push_number_line(&mut out, 30);
    assert_eq!(out, b"a\nb\n\n30");
}

#[test]
fn line_end_finds_the_next_line_feed() {
    let text = b"ab\ncd\n\nef";
    assert_eq!(line_end(text, 0), 2);
    assert_eq!(line_end(text, 1), 2);
    assert_eq!(line_end(text, 2), 2);
    assert_eq!(line_end(text, 3), 5);
    assert_eq!(line_end(text, 6), 6);
    assert_eq!(line_end(text, 7), 9);
    assert_eq!(line_end(text, 9), 9);
}

#[test]
fn line_at_drops_a_carriage_return_before_a_line_feed() {
    let text = b"ab\r\ncd\r";
    assert_eq!(line_at(text, 0, 3), b"ab");
    assert_eq!(line_at(text, 4, 7), b"cd\r");
    let bare = b"\r\nx";
    assert_eq!(line_at(bare, 0, 1), b"");
}

#[test]
fn plain_lines_have_no_line_feed_and_no_final_carriage_return() {
    assert!(is_plain_line(b""));
    assert!(is_plain_line(b"abc"));
    assert!(is_plain_line(b"a\rb"));
    assert!(!is_plain_line(b"abc\r"));
    assert!(!is_plain_line(b"\r"));
    assert!(!is_plain_line(b"a\nb"));
    assert!(!is_plain_line(b"\n"));
}
