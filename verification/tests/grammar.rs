use toml_edit::encode::{can_be_bare, quote, write_decimal};
use toml_edit::errors::locate;
use toml_edit::parser::lines::{parse_lines, Line};
use toml_edit::parser::numbers::{eval_digits, parse_datetime, parse_float, parse_integer, scan_digits};
use toml_edit::parser::strings::{parse_key, parse_string, skip_blank};
use toml_edit::parser::trivia::{newline_at, scan, skip_line_rest, skip_trivia, ByteClass};
use toml_edit::text::{bytes_eq, contains_newline, copy_range};
use toml_edit::{Expected, Failure, KeyStyle};

#[test]
fn runs_of_one_class_end_where_the_class_ends() {
    assert_eq!(scan(b"  \t x", 0, ByteClass::Whitespace), 4);
    assert_eq!(scan(b"  \t x", 4, ByteClass::Whitespace), 4);
    assert_eq!(scan(b"abc", 3, ByteClass::BareKey), 3);
    assert_eq!(scan(b"a-b_9.c", 0, ByteClass::BareKey), 5);
    assert_eq!(scan(b"12ab", 0, ByteClass::Digit), 2);
    assert_eq!(scan(b"12abG", 0, ByteClass::HexDigit), 4);
    assert_eq!(scan(b"0178", 0, ByteClass::OctDigit), 3);
    assert_eq!(scan(b"0102", 0, ByteClass::BinDigit), 3);
    assert_eq!(scan(b"# c\x7f", 0, ByteClass::NonEol), 3);
    assert_eq!(scan(b"ab'c", 0, ByteClass::LiteralChar), 2);
    assert_eq!(scan(b"ab\"c", 0, ByteClass::BasicChar), 2);
    assert_eq!(scan(b"ab\\c", 0, ByteClass::BasicChar), 2);
    assert!(ByteClass::NonEol.contains(0xC3));
    assert!(!ByteClass::NonEol.contains(b'\n'));
    assert!(!ByteClass::NonEol.contains(b'\r'));
}

#[test]
fn trivia_is_whitespace_line_breaks_and_comments() {
    assert_eq!(skip_trivia(b" \n# c\n\t\r\n x", 0), 10);
    assert_eq!(skip_trivia(b"x", 0), 0);
    assert_eq!(skip_trivia(b"# to the end", 0), 12);
    assert_eq!(skip_trivia(b" \r x", 0), 1);
    assert_eq!(newline_at(b"\n", 0), 1);
    assert_eq!(newline_at(b"\r\n", 0), 2);
    assert_eq!(newline_at(b"\r", 0), 0);
    assert_eq!(newline_at(b"a", 0), 0);
    assert_eq!(newline_at(b"", 0), 0);
    assert_eq!(skip_blank(b" \n\n \tx", 0), 5);
    assert_eq!(skip_line_rest(b"  # c\nnext", 0), Ok(6));
    assert_eq!(skip_line_rest(b"  # c", 0), Ok(5));
    assert_eq!(skip_line_rest(b"  \r\nnext", 0), Ok(4));
    assert_eq!(skip_line_rest(b"  x", 0), Err(2));
    assert_eq!(skip_line_rest(b"", 0), Ok(0));
}

#[test]
fn digits_may_be_grouped_by_single_underscores() {
    assert_eq!(scan_digits(b"1_000_000x", 0, ByteClass::Digit), 9);
    assert_eq!(scan_digits(b"1__0", 0, ByteClass::Digit), 1);
    assert_eq!(scan_digits(b"_1", 0, ByteClass::Digit), 0);
    assert_eq!(scan_digits(b"1_", 0, ByteClass::Digit), 1);
    assert_eq!(eval_digits(b"1_000", 0, 5, 10), Some(1000));
    assert_eq!(eval_digits(b"ff", 0, 2, 16), Some(255));
    assert_eq!(eval_digits(b"FF", 0, 2, 16), Some(255));
    assert_eq!(eval_digits(b"777", 0, 3, 8), Some(511));
    assert_eq!(eval_digits(b"", 0, 0, 10), Some(0));
    assert_eq!(eval_digits(b"9223372036854775808", 0, 19, 10), Some(1 << 63));
    assert_eq!(eval_digits(b"9223372036854775809", 0, 19, 10), None);
    assert_eq!(eval_digits(b"99999999999999999999999", 0, 23, 10), None);
}

#[test]
fn numbers_end_where_their_grammar_ends() {
    assert_eq!(parse_integer(b"42 ", 0), Some((42, 2)));
    assert_eq!(parse_integer(b"+42", 0), Some((42, 3)));
    assert_eq!(parse_integer(b"-", 0), None);
    assert_eq!(parse_integer(b"0x", 0), None);
    assert_eq!(parse_integer(b"0b12", 0), Some((1, 3)));
    assert_eq!(parse_float(b"1.5", 0), Some(3));
    assert_eq!(parse_float(b"1", 0), None);
    assert_eq!(parse_float(b"1e-3x", 0), Some(4));
    assert_eq!(parse_float(b"1.e3", 0), None);
    assert_eq!(parse_float(b"-nan", 0), Some(4));
    assert_eq!(parse_float(b"+inf", 0), Some(4));
    assert_eq!(parse_float(b"in", 0), None);
    assert_eq!(parse_datetime(b"1979-05-27", 0), Some(10));
    assert_eq!(parse_datetime(b"1979-05-27T07:32:00", 0), Some(19));
    assert_eq!(parse_datetime(b"1979-05-27t07:32:00.5Z", 0), Some(22));
    assert_eq!(parse_datetime(b"1979-05-27 07:32:00+01:30", 0), Some(25));
    assert_eq!(parse_datetime(b"1979-05-27 07:32", 0), Some(10));
    assert_eq!(parse_datetime(b"07:32:00.123456", 0), Some(15));
    assert_eq!(parse_datetime(b"07:32", 0), None);
    assert_eq!(parse_datetime(b"1979-5-27", 0), None);
}

#[test]
fn keys_are_bare_or_quoted() {
    let (key, end) = parse_key(b"a-b = 1", 0).unwrap();
    assert_eq!(end, 3);
    assert_eq!(key.name(), b"a-b");
    assert_eq!(key.raw(), b"a-b");
    assert_eq!(key.style(), KeyStyle::Bare);
    let (key, end) = parse_key(b"\"a\\tb\" = 1", 0).unwrap();
    assert_eq!(end, 6);
    assert_eq!(key.name(), b"a\tb");
    assert_eq!(key.raw(), b"\"a\\tb\"");
    assert_eq!(key.style(), KeyStyle::Basic);
    let (key, end) = parse_key(b"'a b'", 0).unwrap();
    assert_eq!(end, 5);
    assert_eq!(key.name(), b"a b");
    assert_eq!(key.style(), KeyStyle::Literal);
    assert!(parse_key(b"= 1", 0).is_none());
    assert!(parse_key(b"'abc", 0).is_none());
    assert_eq!(parse_key(b"\"\"\"k\"\"\"", 0).unwrap().1, 2);
    assert_eq!(parse_string(b"\"\"\"k\"\"\"", 0).unwrap().1, 7);
}

#[test]
fn lines_are_key_values_and_headers() {
    let (lines, trailing) = parse_lines(b"# top\na = 1 # one\n\n[ x . 'y' ] # t\n[[z]]\n# end").unwrap();
    assert_eq!(trailing, b"# end");
    assert_eq!(lines.len(), 3);
    match &lines[0] {
        Line::KeyValue { key, value } => {
            assert_eq!(key.decor.prefix(), b"# top\n");
            assert_eq!(key.decor.suffix(), b" ");
            assert_eq!(key.name(), b"a");
            assert_eq!(value.decor().prefix(), b" ");
            assert_eq!(value.decor().suffix(), b" # one\n");
            assert_eq!(value.as_integer(), Some(1));
        }
        _ => panic!("the first line is a key and a value"),
    }
    match &lines[1] {
        Line::Header { decor, path, array } => {
            assert_eq!(decor.prefix(), b"\n");
            assert_eq!(decor.suffix(), b" # t\n");
            assert!(!*array);
            assert_eq!(path.len(), 2);
            assert_eq!(path[0].decor.prefix(), b" ");
            assert_eq!(path[0].decor.suffix(), b" ");
            assert_eq!(path[0].raw(), b"x");
            assert_eq!(path[1].raw(), b"'y'");
            assert_eq!(path[1].name(), b"y");
        }
        _ => panic!("the second line is a header"),
    }
    match &lines[2] {
        Line::Header { array, path, .. } => {
            assert!(*array);
            assert_eq!(path.len(), 1);
        }
        _ => panic!("the third line is a header"),
    }
    assert_eq!(
        parse_lines(b"a = 1\n[b").unwrap_err(),
        Failure::NoMatch { at: 8, expected: Expected::HeaderClose }
    );
}

#[test]
fn places_are_lines_and_columns() {
    let text = b"ab\ncd\n\nxyz";
    assert_eq!(locate(text, 0), (1, 1));
    assert_eq!(locate(text, 1), (1, 2));
    assert_eq!(locate(text, 2), (1, 3));
    assert_eq!(locate(text, 3), (2, 1));
    assert_eq!(locate(text, 6), (3, 1));
    assert_eq!(locate(text, 7), (4, 1));
    assert_eq!(locate(text, 10), (4, 4));
    assert_eq!(locate(text, 99), (4, 4));
    assert_eq!(locate(b"", 0), (1, 1));
}

#[test]
fn texts_are_compared_and_copied() {
    assert!(bytes_eq(b"abc", b"abc"));
    assert!(!bytes_eq(b"abc", b"abd"));
    assert!(!bytes_eq(b"abc", b"ab"));
    assert!(bytes_eq(b"", b""));
    assert!(contains_newline(b"a\nb"));
    assert!(!contains_newline(b"a\rb"));
    assert!(!contains_newline(b""));
    assert_eq!(copy_range(b"hello", 1, 3), b"el");
    assert_eq!(copy_range(b"hello", 2, 2), b"");
}

#[test]
fn texts_are_written_for_reading_back() {
    assert_eq!(quote(b""), b"\"\"");
    assert_eq!(quote(b"a\"b"), b"\"a\\\"b\"");
    assert_eq!(quote(b"\x1f"), b"\"\\u001F\"");
    assert_eq!(quote(b"\t"), b"\"\t\"");
    assert_eq!(write_decimal(0), b"0");
    assert_eq!(write_decimal(-1), b"-1");
    assert_eq!(write_decimal(1200), b"1200");
    assert_eq!(write_decimal(i64::MIN), b"-9223372036854775808");
    assert!(can_be_bare(b"a_b-1"));
    assert!(!can_be_bare(b""));
    assert!(!can_be_bare(b"a b"));
    assert!(!can_be_bare(b"a.b"));
}
