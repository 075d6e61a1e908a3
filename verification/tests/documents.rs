use toml_edit::{CustomError, Document, Expected, TomlError, ValueKind};

fn parse(text: &str) -> Document {
    Document::parse(text.as_bytes()).expect("the text is a document")
}

fn original(doc: &Document) -> String {
    String::from_utf8(doc.to_bytes_in_original_order()).unwrap()
}

fn canonical(doc: &Document) -> String {
    String::from_utf8(doc.to_bytes()).unwrap()
}

fn round_trip(text: &str) {
    let doc = parse(text);
    assert_eq!(original(&doc), text);
    assert_eq!(canonical(&doc), text);
}

#[test]
fn key_value_and_header_come_back() {
    round_trip("\"hello\" = 'toml!' # comment\n['a'.b]\n");
}

#[test]
fn leading_newline_comes_back() {
    round_trip("\n\"hello\" = 'toml!' # comment\n['a'.b]\n");
}

#[test]
fn trailing_comma_and_comment_come_back() {
    round_trip("a = [1, 2, 3,] # note\n");
}

#[test]
fn empty_text_is_a_document() {
    round_trip("");
}

#[test]
fn comments_and_blank_lines_come_back() {
    round_trip("# top\n\n  # indented\na = 1 # one\n\n\n[t] # table\n  b = 2\n# end\n");
}

#[test]
fn last_line_without_line_break_comes_back() {
    round_trip("a = 1");
    round_trip("[t]");
    round_trip("a = 1 # c");
}

#[test]
fn carriage_returns_come_back() {
    round_trip("a = 1\r\n[t]\r\nb = 2\r\n");
}

#[test]
fn all_kinds_of_values_come_back() {
    let lines = [
        "s = \"a\\tb\\u00e9\\\"\"\n",
        "l = 'C:\\path'\n",
        "i = +1_000\n",
        "h = 0xDEAD_beef\n",
        "o = 0o755\n",
        "b = 0b1010\n",
        "f = -1.5e+10\n",
        "g = 6.02_2e23\n",
        "inf = -inf\n",
        "nan = nan\n",
        "t = true\n",
        "u = false\n",
        "d = 1979-05-27T07:32:00.999-07:00\n",
        "e = 1979-05-27 07:32:00Z\n",
        "day = 1979-05-27\n",
        "time = 07:32:00\n",
        "a = [ [1, 2], ['a', \"b\"], [] ]\n",
        "it = { x = 1, \"y z\" = { q = [true] } }\n",
        "empty = {  }\n",
    ];
    round_trip(&lines.join(""));
}

#[test]
fn multi_line_array_comes_back() {
    round_trip("a = [\n  1, # one\n  2,\n  # last\n]\n");
}

#[test]
fn arrays_of_tables_come_back() {
    round_trip("[[bin]]\nname = 'a'\n\n[[bin]]\nname = 'b'\n[bin.opt]\nx = 1\n[[bin]]\n");
}

#[test]
fn non_ascii_bytes_come_back() {
    round_trip("name = \"Jos\u{e9}\" # caf\u{e9}\n'k\u{e9}y' = '\u{1F600}'\n");
}

#[test]
fn headers_are_written_from_the_first_spelling() {
    let doc = parse("[ 'a'. b]\n[ \"a\"  .c]\n[a.d]\n");
    assert_eq!(canonical(&doc), "['a'.b]\n['a'.c]\n['a'.d]\n");
    assert_eq!(original(&doc), "['a'.b]\n['a'.c]\n['a'.d]\n");
}

#[test]
fn child_before_parent_is_reordered_in_canonical_order_only() {
    let text = "[a.b]\nx = 1\n[a]\ny = 2\n";
    let doc = parse(text);
    assert_eq!(original(&doc), text);
    assert_eq!(canonical(&doc), "[a]\ny = 2\n[a.b]\nx = 1\n");
}

#[test]
fn scattered_array_of_tables_is_gathered_in_canonical_order_only() {
    let text = "[[a]]\nx = 1\n[b]\n[[a]]\nx = 2\n";
    let doc = parse(text);
    assert_eq!(original(&doc), text);
    assert_eq!(canonical(&doc), "[[a]]\nx = 1\n[[a]]\nx = 2\n[b]\n");
}

#[test]
fn mixed_array_is_refused() {
    let err = Document::parse(b"a = [1, \"a\"]\n").unwrap_err();
    assert_eq!(
        err,
        TomlError::Custom(CustomError::MixedArrayType {
            got: ValueKind::String,
            expected: ValueKind::Integer,
        })
    );
}

#[test]
fn nested_mixed_array_is_refused() {
    let err = Document::parse(b"a = [[1, 2], [3, 4.0]]\n").unwrap_err();
    assert_eq!(
        err,
        TomlError::Custom(CustomError::MixedArrayType {
            got: ValueKind::Float,
            expected: ValueKind::Integer,
        })
    );
}

#[test]
fn duplicate_key_is_refused() {
    let err = Document::parse(b"a = 1\na = 2\n").unwrap_err();
    assert_eq!(err, TomlError::Custom(CustomError::DuplicateKey { key: b"a".to_vec() }));
    let err = Document::parse(b"a = 1\n\"a\" = 2\n").unwrap_err();
    assert_eq!(err, TomlError::Custom(CustomError::DuplicateKey { key: b"a".to_vec() }));
}

#[test]
fn duplicate_table_is_refused() {
    let err = Document::parse(b"[a]\n[b]\n[a]\n").unwrap_err();
    assert_eq!(err, TomlError::Custom(CustomError::DuplicateKey { key: b"a".to_vec() }));
    let err = Document::parse(b"a = 1\n[a.b]\n").unwrap_err();
    assert_eq!(err, TomlError::Custom(CustomError::DuplicateKey { key: b"a".to_vec() }));
    let err = Document::parse(b"[a]\n[[a]]\n").unwrap_err();
    assert_eq!(err, TomlError::Custom(CustomError::DuplicateKey { key: b"a".to_vec() }));
    let err = Document::parse(b"[[a]]\n[a]\n").unwrap_err();
    assert_eq!(err, TomlError::Custom(CustomError::DuplicateKey { key: b"a".to_vec() }));
}

#[test]
fn duplicate_key_in_inline_table_is_refused() {
    let err = Document::parse(b"t = { a = 1, a = 2 }\n").unwrap_err();
    assert_eq!(err, TomlError::Custom(CustomError::DuplicateKey { key: b"a".to_vec() }));
}

#[test]
fn implicit_table_may_get_its_header_later() {
    let text = "[a]\n[a.b.c]\n[a.b]\nx = 1\n";
    let doc = parse(text);
    assert_eq!(original(&doc), text);
    assert_eq!(canonical(&doc), "[a]\n[a.b]\nx = 1\n[a.b.c]\n");
    let doc = parse("[a.b.c]\n[a]\n");
    assert_eq!(original(&doc), "[a.b.c]\n[a]\n");
    assert_eq!(canonical(&doc), "[a]\n[a.b.c]\n");
}

#[test]
fn syntax_errors_have_a_place() {
    let err = Document::parse(b"a = 1\nb = @\n").unwrap_err();
    assert_eq!(err, TomlError::Syntax { line: 2, column: 5, expected: Expected::Value });
    let err = Document::parse(b"a 1\n").unwrap_err();
    assert_eq!(err, TomlError::Syntax { line: 1, column: 3, expected: Expected::Equals });
    let err = Document::parse(b"a = 1 b = 2\n").unwrap_err();
    assert_eq!(err, TomlError::Syntax { line: 1, column: 7, expected: Expected::LineEnd });
    let err = Document::parse(b"\n\n[a\n").unwrap_err();
    assert_eq!(err, TomlError::Syntax { line: 3, column: 3, expected: Expected::HeaderClose });
    let err = Document::parse(b"[[a]\n").unwrap_err();
    assert_eq!(err, TomlError::Syntax { line: 1, column: 4, expected: Expected::HeaderClose });
    let err = Document::parse(b"= 1\n").unwrap_err();
    assert_eq!(err, TomlError::Syntax { line: 1, column: 1, expected: Expected::Key });
    let err = Document::parse(b"a = [1, 2\n").unwrap_err();
    assert_eq!(err, TomlError::Syntax { line: 2, column: 1, expected: Expected::ArrayClose });
    let err = Document::parse(b"a = { b = 1\n").unwrap_err();
    assert_eq!(err, TomlError::Syntax { line: 1, column: 12, expected: Expected::InlineTableClose });
    let err = Document::parse(b"a = \"abc\n").unwrap_err();
    assert_eq!(err, TomlError::Syntax { line: 1, column: 5, expected: Expected::Value });
}

#[test]
fn integer_out_of_range_is_refused() {
    assert!(Document::parse(b"a = 9223372036854775807\n").is_ok());
    assert!(Document::parse(b"a = -9223372036854775808\n").is_ok());
    assert!(Document::parse(b"a = 9223372036854775808\n").is_err());
    assert!(Document::parse(b"a = -9223372036854775809\n").is_err());
    assert!(Document::parse(b"a = 0x7FFFFFFFFFFFFFFF\n").is_ok());
    assert!(Document::parse(b"a = 0x8000000000000000\n").is_err());
}

#[test]
fn values_are_typed() {
    let doc = parse("i = -1_000\nh = 0xff\ns = \"a\\n\\u0041\\U0001F600\"\nl = 'x\\y'\nb = true\nf = 1.5\n");
    let root = doc.root();
    assert_eq!(doc.get_value(root, b"i").unwrap().as_integer(), Some(-1000));
    assert_eq!(doc.get_value(root, b"h").unwrap().as_integer(), Some(255));
    assert_eq!(doc.get_value(root, b"s").unwrap().as_str().unwrap(), "a\nA\u{1F600}".as_bytes());
    assert_eq!(doc.get_value(root, b"l").unwrap().as_str().unwrap(), b"x\\y");
    assert_eq!(doc.get_value(root, b"b").unwrap().as_bool(), Some(true));
    assert_eq!(doc.get_value(root, b"f").unwrap().as_raw().unwrap(), b"1.5");
    let f: f64 = std::str::from_utf8(doc.get_value(root, b"f").unwrap().as_raw().unwrap())
        .unwrap()
        .parse()
        .unwrap();
    assert_eq!(f, 1.5);
    assert!(doc.get_value(root, b"missing").is_none());
}

#[test]
fn tables_are_found_by_name() {
    let doc = parse("[a]\nx = 1\n[a.b]\ny = 2\n[[c]]\nz = 3\n[[c]]\nz = 4\n");
    let a = doc.get_table(doc.root(), b"a").unwrap();
    let b = doc.get_table(a, b"b").unwrap();
    assert_eq!(doc.get_value(a, b"x").unwrap().as_integer(), Some(1));
    assert_eq!(doc.get_value(b, b"y").unwrap().as_integer(), Some(2));
    assert_eq!(doc.array_len(doc.root(), b"c"), Some(2));
    let c1 = doc.get_array_table(doc.root(), b"c", 1).unwrap();
    assert_eq!(doc.get_value(c1, b"z").unwrap().as_integer(), Some(4));
    assert!(doc.get_array_table(doc.root(), b"c", 2).is_none());
    assert!(doc.get_table(doc.root(), b"c").is_none());
    assert!(doc.get_table(99, b"a").is_none());
}
