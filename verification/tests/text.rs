use entry_rank::text::{
    as_text, decimal_string, first_line_of, push_decimal, push_digits, trimmed_text, utc_time_text,
};

#[test]
fn first_line_stops_at_the_line_feed() {
    assert_eq!(first_line_of("title\nbody\nmore"), "title");
    assert_eq!(first_line_of("title\r\nbody"), "title");
    assert_eq!(first_line_of("only"), "only");
    assert_eq!(first_line_of(""), "");
    assert_eq!(first_line_of("\nbody"), "");
    assert_eq!(first_line_of("\r\nbody"), "");
    assert_eq!(first_line_of("a\r\r\nb"), "a\r");
    assert_eq!(first_line_of("caf\u{e9} \u{1F600}\nnext"), "caf\u{e9} \u{1F600}");
}

#[test]
fn first_line_agrees_with_lines() {
    let samples = [
        "", "a", "a\n", "a\r", "a\r\n", "\r", "\n", "\r\n", "a\rb\nc", "a\n\r\nb", "x\r\n\r\n",
        "\u{e9}\r\n\u{e9}", "tab\there\nnext", "no newline at all\r",
    ];
    for sample in samples {
        assert_eq!(first_line_of(sample), sample.lines().next().unwrap_or(""), "{:?}", sample);
    }
}

#[test]
fn decimal_of_small_and_large_numbers() {
    assert_eq!(decimal_string(0), "0");
    assert_eq!(decimal_string(7), "7");
    assert_eq!(decimal_string(10), "10");
    assert_eq!(decimal_string(1662), "1662");
    assert_eq!(decimal_string(-1), "-1");
    assert_eq!(decimal_string(-350), "-350");
    assert_eq!(decimal_string(i64::MAX), "9223372036854775807");
    assert_eq!(decimal_string(i64::MIN), "-9223372036854775808");
}

#[test]
fn decimal_agrees_with_to_string() {
    let mut n: i64 = 1;
    for _ in 0..62 {
        assert_eq!(decimal_string(n), n.to_string());
        assert_eq!(decimal_string(-n), (-n).to_string());
        assert_eq!(decimal_string(n - 1), (n - 1).to_string());
        n *= 2;
    }
}

#[test]
fn digits_and_decimals_are_appended() {
    let mut text = String::from("n=");
    push_digits(&mut text, 0);
    text.push(',');
    push_digits(&mut text, 18446744073709551615);
    text.push(',');
    push_decimal(&mut text, -45);
    assert_eq!(text, "n=0,18446744073709551615,-45");
}

#[test]
fn as_text_accepts_utf8_only() {
    assert_eq!(as_text(&b"plain".to_vec()), Some("plain"));
    assert_eq!(as_text(&"caf\u{e9}".as_bytes().to_vec()), Some("caf\u{e9}"));
    assert_eq!(as_text(&Vec::new()), Some(""));
    assert_eq!(as_text(&vec![0xff, 0xfe]), None);
    assert_eq!(as_text(&vec![b'a', 0x80]), None);
    assert_eq!(as_text(&vec![0xe2, 0x82]), None);
}

#[test]
fn trimmed_text_takes_white_space_off_both_ends() {
    assert_eq!(trimmed_text("  hello world \n"), "hello world");
    assert_eq!(trimmed_text("\t\r\n x \u{a0}\u{3000}"), "x");
    assert_eq!(trimmed_text("inner  space"), "inner  space");
    assert_eq!(trimmed_text(" \n\t "), "");
    assert_eq!(trimmed_text(""), "");
    assert_eq!(trimmed_text("\u{200b}x\u{200b}"), "\u{200b}x\u{200b}");
}

#[test]
fn white_space_is_what_char_says_it_is() {
    let white: Vec<u32> = vec![
        0x09, 0x0A, 0x0B, 0x0C, 0x0D, 0x20, 0x85, 0xA0, 0x1680, 0x2000, 0x2001, 0x2002, 0x2003,
        0x2004, 0x2005, 0x2006, 0x2007, 0x2008, 0x2009, 0x200A, 0x2028, 0x2029, 0x202F, 0x205F,
        0x3000,
    ];
    for code in 0..=0x10FFFFu32 {
        if let Some(c) = char::from_u32(code) {
            assert_eq!(c.is_whitespace(), white.contains(&code), "U+{:04X}", code);
            if code < 0x3100 || code % 0x101 == 0 {
                let framed = format!("{}x{}", c, c);
                let expected = if white.contains(&code) { "x".to_string() } else { framed.clone() };
                assert_eq!(trimmed_text(&framed), expected, "U+{:04X}", code);
            }
        }
    }
}

#[test]
fn utc_time_text_shows_date_and_time() {
    assert_eq!(utc_time_text(0), Some("1970-01-01 00:00:00 UTC".to_string()));
    assert_eq!(utc_time_text(1431648000), Some("2015-05-15 00:00:00 UTC".to_string()));
    assert_eq!(utc_time_text(-1), Some("1969-12-31 23:59:59 UTC".to_string()));
    assert_eq!(utc_time_text(951782400 + 3661), Some("2000-02-29 01:01:01 UTC".to_string()));
}

#[test]
fn utc_time_text_has_no_date_beyond_the_range() {
    assert_eq!(utc_time_text(i64::MAX), None);
    assert_eq!(utc_time_text(i64::MIN), None);
}
