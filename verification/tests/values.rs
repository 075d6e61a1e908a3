use toml_edit::parser::array::array_from_vec;
use toml_edit::parser::value::parse_value;
use toml_edit::{Array, CustomError, Decor, Expected, Failure, InlineTable, Key, KeyStyle, Value, ValueKind};

fn value(text: &str) -> Value {
    let (v, end) = parse_value(text.as_bytes(), 0).expect("the text is a value");
    assert_eq!(end, text.len());
    v
}

fn text_of(v: &Value) -> String {
    String::from_utf8(v.to_bytes()).unwrap()
}

#[test]
fn array_with_trailing_comma_keeps_it() {
    let v = value("[1, 2, 3,]");
    let a = v.as_array().unwrap();
    assert_eq!(a.len(), 3);
    assert!(a.trailing_comma());
    assert_eq!(a.trailing(), b"");
    assert!(!a.newlines());
    assert_eq!(a.value_type(), Some(ValueKind::Integer));
    assert_eq!(text_of(&v), "[1, 2, 3,]");
}

#[test]
fn array_keeps_what_stands_before_its_closing_bracket() {
    let v = value("[1, # one\n 2 # two\n, # dangling\n]");
    let a = v.as_array().unwrap();
    assert_eq!(a.len(), 2);
    assert!(a.trailing_comma());
    assert_eq!(a.trailing(), b" # dangling\n");
    assert!(a.newlines());
    assert_eq!(a.get(0).unwrap().decor().suffix(), b"");
    assert_eq!(a.get(1).unwrap().decor().prefix(), b" # one\n ");
    assert_eq!(a.get(1).unwrap().decor().suffix(), b" # two\n");
    assert_eq!(text_of(&v), "[1, # one\n 2 # two\n, # dangling\n]");
}

#[test]
fn empty_array_keeps_its_inside() {
    let v = value("[ \n ]");
    let a = v.as_array().unwrap();
    assert!(a.is_empty());
    assert!(!a.trailing_comma());
    assert_eq!(a.trailing(), b" \n ");
    assert_eq!(a.value_type(), None);
    assert_eq!(text_of(&v), "[ \n ]");
}

#[test]
fn mixed_array_names_both_kinds() {
    let err = parse_value(b"[1, \"a\"]", 0).unwrap_err();
    assert_eq!(
        err,
        Failure::Abort {
            error: CustomError::MixedArrayType {
                got: ValueKind::String,
                expected: ValueKind::Integer,
            }
        }
    );
}

#[test]
fn array_from_vec_takes_values_of_one_kind() {
    let a = array_from_vec(vec![Value::integer(1), Value::integer(2)], true, b" ").unwrap();
    assert_eq!(a.len(), 2);
    assert!(a.trailing_comma());
    assert_eq!(a.trailing(), b" ");
    assert!(!a.newlines());
    assert_eq!(text_of(&Value::Array(a)), "[1,2, ]");
}

#[test]
fn array_from_vec_sees_line_breaks_in_decorations() {
    let broken = Value::integer(2).decorated(Decor::new(b"\n", b""));
    let a = array_from_vec(vec![Value::integer(1), broken], false, b"").unwrap();
    assert!(a.newlines());
}

#[test]
fn array_from_vec_refuses_the_first_other_kind() {
    let err = array_from_vec(
        vec![Value::integer(1), Value::integer(2), Value::boolean(true), Value::string(b"x")],
        false,
        b"",
    )
    .unwrap_err();
    assert_eq!(
        err,
        CustomError::MixedArrayType { got: ValueKind::Boolean, expected: ValueKind::Integer }
    );
}

#[test]
fn array_from_vec_of_nothing_is_empty() {
    let a = array_from_vec(Vec::new(), false, b"  ").unwrap();
    assert!(a.is_empty());
    assert_eq!(a.value_type(), None);
    assert_eq!(text_of(&Value::Array(a)), "[  ]");
}

#[test]
fn push_keeps_an_array_of_one_kind() {
    let mut a = Array::new();
    assert_eq!(a.value_type(), None);
    assert_eq!(a.push(Value::string(b"a")), Ok(()));
    assert_eq!(a.push(Value::string(b"b")), Ok(()));
    assert_eq!(a.value_type(), Some(ValueKind::String));
    let before = text_of(&Value::Array(clone_array(&a)));
    assert_eq!(
        a.push(Value::integer(1)),
        Err(CustomError::MixedArrayType { got: ValueKind::Integer, expected: ValueKind::String })
    );
    assert_eq!(a.len(), 2);
    assert_eq!(text_of(&Value::Array(clone_array(&a))), before);
    assert_eq!(a.push(Value::string(b"c")), Ok(()));
    assert_eq!(a.len(), 3);
}

fn clone_array(a: &Array) -> Array {
    match Value::Array(Array {
        values: a.values.iter().map(|v| v.duplicate()).collect(),
        trailing: a.trailing.clone(),
        trailing_comma: a.trailing_comma,
        newlines: a.newlines,
        decor: a.decor.duplicate(),
    })
    .duplicate()
    {
        Value::Array(a) => a,
        _ => unreachable!(),
    }
}

#[test]
fn copies_are_equal_to_what_they_copy() {
    let v = value("[{ a = [1, 2], 'b c' = \"x\" }, { d = 1979-05-27 }]");
    let copy = v.duplicate();
    assert_eq!(copy, v);
    assert_eq!(text_of(&copy), text_of(&v));
    let k = Key::new(b"a b").decorated(Decor::new(b" ", b"\t"));
    assert_eq!(k.duplicate(), k);
}

#[test]
fn push_records_line_breaks() {
    let mut a = Array::new();
    a.push(Value::integer(1)).unwrap();
    assert!(!a.newlines());
    a.push(Value::integer(2).decorated(Decor::new(b"", b" # two\n"))).unwrap();
    assert!(a.newlines());
    a.push(Value::integer(3)).unwrap();
    assert!(a.newlines());
}

#[test]
fn remove_leaves_the_closing_region() {
    let v = value("[1, 2, 3, # last\n]");
    let mut a = match v {
        Value::Array(a) => a,
        _ => unreachable!(),
    };
    let taken = a.remove(1).unwrap();
    assert_eq!(taken.as_integer(), Some(2));
    assert_eq!(a.len(), 2);
    assert!(a.trailing_comma());
    assert_eq!(a.trailing(), b" # last\n");
    assert_eq!(a.get(1).unwrap().as_integer(), Some(3));
    assert!(a.remove(2).is_none());
    assert_eq!(a.len(), 2);
    assert!(a.get(2).is_none());
}

#[test]
fn array_layout_on_one_line() {
    let mut v = value("[\n 1 ,2,   3, # c\n]");
    v.fmt(false);
    assert_eq!(text_of(&v), "[1, 2, 3]");
    v.fmt(false);
    assert_eq!(text_of(&v), "[1, 2, 3]");
}

#[test]
fn array_layout_on_several_lines() {
    let mut v = value("[1,2]");
    v.fmt(true);
    assert_eq!(text_of(&v), "[\n    1,\n    2,\n]");
    assert!(v.as_array().unwrap().newlines());
    v.fmt(true);
    assert_eq!(text_of(&v), "[\n    1,\n    2,\n]");
    v.fmt(false);
    assert_eq!(text_of(&v), "[1, 2]");
    let mut empty = value("[ ]");
    empty.fmt(true);
    assert_eq!(text_of(&empty), "[]");
}

#[test]
fn inline_table_layout() {
    let mut v = value("{a=1,b   =  'x' , c = { d = 2}}");
    v.fmt(false);
    assert_eq!(text_of(&v), "{ a = 1, b = 'x', c = { d = 2} }");
    v.fmt(false);
    assert_eq!(text_of(&v), "{ a = 1, b = 'x', c = { d = 2} }");
    let mut empty = value("{   }");
    empty.fmt(false);
    assert_eq!(text_of(&empty), "{}");
}

#[test]
fn inline_table_is_a_mapping() {
    let v = value("{a = 1, 'b c' = 2}");
    let mut t = match v {
        Value::InlineTable(t) => t,
        _ => unreachable!(),
    };
    assert_eq!(t.len(), 2);
    assert_eq!(t.get(b"a").unwrap().as_integer(), Some(1));
    assert_eq!(t.get(b"b c").unwrap().as_integer(), Some(2));
    assert!(t.get(b"b").is_none());
    assert_eq!(t.find(b"b c"), Some(1));
    let old = t.insert(Key::new(b"a"), Value::integer(5)).unwrap();
    assert_eq!(old.as_integer(), Some(1));
    assert!(t.insert(Key::new(b"z"), Value::integer(9)).is_none());
    assert_eq!(t.len(), 3);
    assert_eq!(t.find(b"z"), Some(2));
    let taken = t.remove(b"b c").unwrap();
    assert_eq!(taken.as_integer(), Some(2));
    assert!(t.remove(b"b c").is_none());
    assert_eq!(t.find(b"z"), Some(1));
    let mut made = InlineTable::new();
    assert!(made.is_empty());
    made.insert(Key::new(b"k"), Value::boolean(false));
    made.fmt();
    assert_eq!(text_of(&Value::InlineTable(made)), "{ k = false }");
}

#[test]
fn values_have_kinds() {
    assert_eq!(value("'a'").kind(), ValueKind::String);
    assert_eq!(value("\"a\"").kind(), ValueKind::String);
    assert_eq!(value("1").kind(), ValueKind::Integer);
    assert_eq!(value("1.0").kind(), ValueKind::Float);
    assert_eq!(value("1e3").kind(), ValueKind::Float);
    assert_eq!(value("true").kind(), ValueKind::Boolean);
    assert_eq!(value("1979-05-27").kind(), ValueKind::Datetime);
    assert_eq!(value("07:32:00").kind(), ValueKind::Datetime);
    assert_eq!(value("[]").kind(), ValueKind::Array);
    assert_eq!(value("{}").kind(), ValueKind::InlineTable);
}

#[test]
fn integers_are_read_in_four_bases() {
    assert_eq!(value("0").as_integer(), Some(0));
    assert_eq!(value("+0").as_integer(), Some(0));
    assert_eq!(value("-0").as_integer(), Some(0));
    assert_eq!(value("1_2_3").as_integer(), Some(123));
    assert_eq!(value("-17").as_integer(), Some(-17));
    assert_eq!(value("0xDEADBEEF").as_integer(), Some(0xDEADBEEF));
    assert_eq!(value("0xdead_beef").as_integer(), Some(0xDEADBEEF));
    assert_eq!(value("0o17").as_integer(), Some(15));
    assert_eq!(value("0b1101").as_integer(), Some(13));
    assert_eq!(value("9223372036854775807").as_integer(), Some(i64::MAX));
    assert_eq!(value("-9223372036854775808").as_integer(), Some(i64::MIN));
    assert_eq!(
        parse_value(b"9223372036854775808", 0).unwrap_err(),
        Failure::NoMatch { at: 0, expected: Expected::Value }
    );
}

#[test]
fn a_number_ends_where_its_grammar_ends() {
    assert_eq!(parse_value(b"01", 0).unwrap().1, 1);
    assert_eq!(parse_value(b"1__2", 0).unwrap().1, 1);
    assert_eq!(parse_value(b"1_", 0).unwrap().1, 1);
    assert_eq!(parse_value(b"1.", 0).unwrap().1, 1);
    assert_eq!(parse_value(b"1.5e", 0).unwrap().1, 3);
    assert_eq!(parse_value(b"1979-05-27T", 0).unwrap().1, 10);
    assert_eq!(parse_value(b"07:32:00.", 0).unwrap().1, 8);
    assert_eq!(parse_value(b"truex", 0).unwrap().1, 4);
    assert_eq!(parse_value(b"x = 5", 4).unwrap().1, 5);
}

#[test]
fn strings_are_decoded() {
    assert_eq!(value("\"\"").as_str().unwrap(), b"");
    assert_eq!(value("''").as_str().unwrap(), b"");
    assert_eq!(value("\"a\\b\\t\\n\\f\\r\\\"\\\\z\"").as_str().unwrap(), b"a\x08\t\n\x0c\r\"\\z");
    assert_eq!(value("\"\\u00e9\"").as_str().unwrap(), "\u{e9}".as_bytes());
    assert_eq!(value("\"\\u20AC\"").as_str().unwrap(), "\u{20ac}".as_bytes());
    assert_eq!(value("\"\\U0001F600\"").as_str().unwrap(), "\u{1F600}".as_bytes());
    assert_eq!(value("\"\\u0041\"").as_str().unwrap(), b"A");
    assert_eq!(value("'a\\nb'").as_str().unwrap(), b"a\\nb");
    assert!(parse_value(b"\"\\uD800\"", 0).is_err());
    assert!(parse_value(b"\"\\U00110000\"", 0).is_err());
    assert!(parse_value(b"\"\\x\"", 0).is_err());
    assert!(parse_value(b"\"a\nb\"", 0).is_err());
    assert!(parse_value(b"'a\nb'", 0).is_err());
    assert!(parse_value(b"\"abc", 0).is_err());
}

#[test]
fn strings_of_several_lines_are_decoded() {
    assert_eq!(value("\"\"\"\nRoses\nViolets\"\"\"").as_str().unwrap(), b"Roses\nViolets");
    assert_eq!(value("\"\"\"a\"b\"\"c\"\"\"").as_str().unwrap(), b"a\"b\"\"c");
    assert_eq!(
        value("\"\"\"\nThe quick \\\n\n\n  brown \\  \n  fox.\\t\"\"\"").as_str().unwrap(),
        b"The quick brown fox.\t"
    );
    assert_eq!(value("\"\"\"\r\na\r\nb\"\"\"").as_str().unwrap(), b"a\r\nb");
    assert_eq!(value("'''\nC:\\dir\n'it''s'\n'''").as_str().unwrap(), b"C:\\dir\n'it''s'\n");
    assert_eq!(value("''''''").as_str().unwrap(), b"");
    assert_eq!(value("\"\"\"\"\"\"").as_str().unwrap(), b"");
    assert!(parse_value(b"\"\"\"abc\"\"", 0).is_err());
    assert!(parse_value(b"'''abc''", 0).is_err());
    assert_eq!(text_of(&value("\"\"\"\na\\\n  b\"\"\"")), "\"\"\"\na\\\n  b\"\"\"");
}

#[test]
fn new_scalars_are_written_and_read_back() {
    for n in [0i64, 7, -7, 10, 1234567890, i64::MAX, i64::MIN] {
        let v = Value::integer(n);
        assert_eq!(text_of(&v), n.to_string());
        assert_eq!(value(&text_of(&v)), v);
    }
    for b in [true, false] {
        let v = Value::boolean(b);
        assert_eq!(text_of(&v), b.to_string());
        assert_eq!(value(&text_of(&v)), v);
    }
    let v = Value::string(b"hello");
    assert_eq!(text_of(&v), "\"hello\"");
    let v = Value::string(b"a\"b\\c\td\ne\x7f\x00");
    assert_eq!(text_of(&v), "\"a\\\"b\\\\c\td\\u000Ae\\u007F\\u0000\"");
    assert_eq!(value(&text_of(&v)), v);
    let v = Value::string("caf\u{e9}".as_bytes());
    assert_eq!(text_of(&v), "\"caf\u{e9}\"");
    assert_eq!(value(&text_of(&v)), v);
}

#[test]
fn new_keys_are_bare_where_they_can_be() {
    let k = Key::new(b"a-b_9");
    assert_eq!(k.raw(), b"a-b_9");
    assert_eq!(k.name(), b"a-b_9");
    assert_eq!(k.style(), KeyStyle::Bare);
    let k = Key::new(b"a b");
    assert_eq!(k.raw(), b"\"a b\"");
    assert_eq!(k.name(), b"a b");
    assert_eq!(k.style(), KeyStyle::Basic);
    let k = Key::new(b"");
    assert_eq!(k.raw(), b"\"\"");
    assert_eq!(k.style(), KeyStyle::Basic);
    let k = Key::new(b"a.b");
    assert_eq!(k.raw(), b"\"a.b\"");
}

#[test]
fn wrapping_builds_inline_tables() {
    let v = Value::integer(1).wrapped(b"a");
    assert_eq!(text_of(&v), "{a = 1}");
    let names = vec![b"x".to_vec(), b"y z".to_vec(), b"w".to_vec()];
    let v = Value::boolean(true).nested(&names, 1);
    assert_eq!(text_of(&v), "{\"y z\" = {w = true}}");
    let v = Value::boolean(true).nested(&names, 3);
    assert_eq!(text_of(&v), "true");
}

#[test]
fn decoration_is_replaced_as_a_whole() {
    let mut v = value("[1]");
    v.decorate(Decor::new(b" ", b" # c"));
    assert_eq!(text_of(&v), " [1] # c");
    assert!(!v.decor().contains_newline());
    let v = v.decorated(Decor::new(b"\n", b""));
    assert_eq!(text_of(&v), "\n[1]");
    assert!(v.decor().contains_newline());
    assert_eq!(Decor::empty(), Decor::new(b"", b""));
    assert_eq!(v.decor().duplicate(), Decor::new(b"\n", b""));
}

#[test]
fn kinds_and_expectations_have_names() {
    assert_eq!(ValueKind::Integer.name(), "Integer");
    assert_eq!(ValueKind::String.name(), "String");
    assert_eq!(ValueKind::InlineTable.name(), "InlineTable");
    assert_eq!(Expected::Value.describe(), "a value");
    assert_eq!(Expected::LineEnd.describe(), "the end of the line");
    assert_eq!(Expected::HeaderClose.describe(), "`.`, `]` or `]]`");
}

#[test]
fn the_line_break_flag_follows_the_elements() {
    let v = value("[1,\n 2, 3]");
    let mut a = match v {
        Value::Array(a) => a,
        _ => unreachable!(),
    };
    assert!(a.newlines());
    assert!(Value::Array(clone_array(&a)).is_well_formed());
    a.remove(0);
    assert!(a.newlines());
    a.remove(0);
    assert!(!a.newlines());
    assert_eq!(a.len(), 1);
    let mut by_hand = clone_array(&a);
    by_hand.newlines = true;
    assert!(!Value::Array(by_hand).is_well_formed());
}
