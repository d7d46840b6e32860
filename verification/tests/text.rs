use std::io::BufRead;
use std::num::IntErrorKind;

use aerate::checksum::text::{lines, parse_size, render_size, split, SizeError};

fn strings(parts: &[&str]) -> Vec<String> {
    parts.iter().map(|p| p.to_string()).collect()
}

fn std_lines(text: &str) -> Vec<String> {
    std::io::Cursor::new(text.as_bytes()).lines().map(|l| l.unwrap()).collect()
}

fn std_size(field: &str) -> Result<u64, SizeError> {
    field.parse::<u64>().map_err(|e| match e.kind() {
        IntErrorKind::Empty => SizeError::Empty,
        IntErrorKind::InvalidDigit => SizeError::InvalidDigit,
        IntErrorKind::PosOverflow => SizeError::Overflow,
        other => panic!("unexpected kind {:?}", other),
    })
}

#[test]
fn split_keeps_empty_pieces() {
    assert_eq!(split("", '\t'), strings(&[""]));
    assert_eq!(split("a", '\t'), strings(&["a"]));
    assert_eq!(split("a\tb", '\t'), strings(&["a", "b"]));
    assert_eq!(split("\ta\t\tb\t", '\t'), strings(&["", "a", "", "b", ""]));
    assert_eq!(split("\t", '\t'), strings(&["", ""]));
}

#[test]
fn split_agrees_with_std() {
    for text in ["", "x", "a\tb\tc\td", "\t\t\t", "é\tü\t∑", "a b\tc", "tab\tat end\t"] {
        let expected: Vec<String> = text.split('\t').map(String::from).collect();
        assert_eq!(split(text, '\t'), expected, "{:?}", text);
    }
}

#[test]
fn lines_end_at_line_feeds() {
    assert_eq!(lines(""), strings(&[]));
    assert_eq!(lines("\n"), strings(&[""]));
    assert_eq!(lines("a"), strings(&["a"]));
    assert_eq!(lines("a\n"), strings(&["a"]));
    assert_eq!(lines("a\nb"), strings(&["a", "b"]));
    assert_eq!(lines("a\n\nb\n"), strings(&["a", "", "b"]));
}

#[test]
fn lines_take_a_carriage_return_with_the_line_feed() {
    assert_eq!(lines("a\r\nb\r\n"), strings(&["a", "b"]));
    assert_eq!(lines("a\r\r\n"), strings(&["a\r"]));
    assert_eq!(lines("a\rb\n"), strings(&["a\rb"]));
    assert_eq!(lines("a\r"), strings(&["a\r"]));
    assert_eq!(lines("\r\n"), strings(&[""]));
    assert_eq!(lines("\r"), strings(&["\r"]));
}

#[test]
fn lines_agree_with_a_buffered_reader() {
    for text in [
        "",
        "\n",
        "\n\n",
        "a",
        "a\n",
        "a\nb",
        "a\r\nb\r",
        "a\r\r\nb",
        "\r\n\r\n",
        "\r",
        "x\ty\n\nz\n",
        "é\r\n∑",
    ] {
        assert_eq!(lines(text), std_lines(text), "{:?}", text);
    }
}

#[test]
fn render_size_writes_decimal() {
    assert_eq!(render_size(0), "0");
    assert_eq!(render_size(7), "7");
    assert_eq!(render_size(10), "10");
    assert_eq!(render_size(362), "362");
    assert_eq!(render_size(1_000_000), "1000000");
    assert_eq!(render_size(u64::MAX), "18446744073709551615");
}

#[test]
fn render_size_agrees_with_std() {
    for n in [0u64, 1, 9, 10, 11, 99, 100, 101, 12345, 1 << 32, (1 << 61) - 1, u64::MAX - 1] {
        assert_eq!(render_size(n), n.to_string());
    }
}

#[test]
fn parse_size_reads_numbers() {
    assert_eq!(parse_size("0"), Ok(0));
    assert_eq!(parse_size("362"), Ok(362));
    assert_eq!(parse_size("007"), Ok(7));
    assert_eq!(parse_size("+5"), Ok(5));
    assert_eq!(parse_size("18446744073709551615"), Ok(u64::MAX));
}

#[test]
fn parse_size_names_each_error() {
    assert_eq!(parse_size(""), Err(SizeError::Empty));
    assert_eq!(parse_size("+"), Err(SizeError::InvalidDigit));
    assert_eq!(parse_size("-"), Err(SizeError::InvalidDigit));
    assert_eq!(parse_size("-1"), Err(SizeError::InvalidDigit));
    assert_eq!(parse_size("12a"), Err(SizeError::InvalidDigit));
    assert_eq!(parse_size(" 1"), Err(SizeError::InvalidDigit));
    assert_eq!(parse_size("1 "), Err(SizeError::InvalidDigit));
    assert_eq!(parse_size("++1"), Err(SizeError::InvalidDigit));
    assert_eq!(parse_size("18446744073709551616"), Err(SizeError::Overflow));
    assert_eq!(parse_size("99999999999999999999999"), Err(SizeError::Overflow));
}

#[test]
fn parse_size_reports_the_first_fault() {
    assert_eq!(parse_size("99999999999999999999999x"), Err(SizeError::Overflow));
    assert_eq!(parse_size("9x999999999999999999999999"), Err(SizeError::InvalidDigit));
    assert_eq!(parse_size("1844674407370955161x"), Err(SizeError::InvalidDigit));
}

#[test]
fn parse_size_agrees_with_std() {
    for field in [
        "",
        "+",
        "-",
        "0",
        "+0",
        "-0",
        "00",
        "1",
        "+1",
        "1+",
        "12a",
        "a12",
        " 12",
        "12 ",
        "١٢",
        "18446744073709551615",
        "18446744073709551616",
        "+18446744073709551615",
        "00000000000000000000000000001",
        "99999999999999999999999x",
        "x99999999999999999999999",
        "1844674407370955161x",
        "184467440737095516150",
    ] {
        assert_eq!(parse_size(field), std_size(field), "{:?}", field);
    }
}

#[test]
fn parse_size_reads_back_what_render_size_writes() {
    for n in [0u64, 1, 10, 73, 177, 1 << 40, u64::MAX] {
        assert_eq!(parse_size(&render_size(n)), Ok(n));
    }
}

#[test]
fn size_errors_have_words() {
    assert_eq!(SizeError::Empty.message(), "cannot parse integer from empty string");
    assert_eq!(SizeError::InvalidDigit.message(), "invalid digit found in string");
    assert_eq!(SizeError::Overflow.message(), "number too large to fit in target type");
    for field in ["", "x", "99999999999999999999999"] {
        let ours = parse_size(field).unwrap_err().message();
        let theirs = field.parse::<u64>().unwrap_err().to_string();
        assert_eq!(ours, theirs);
    }
}
