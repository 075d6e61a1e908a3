use toml_edit::{CustomError, Decor, Document, Key, Value};

fn read(text: &str) -> Document {
    Document::parse(text.as_bytes()).expect("the text is a document")
}

fn as_written(doc: &Document) -> String {
    String::from_utf8(doc.to_bytes_in_original_order()).unwrap()
}

fn arranged(doc: &Document) -> String {
    String::from_utf8(doc.to_bytes()).unwrap()
}

fn names(path: &[&str]) -> Vec<Vec<u8>> {
    path.iter().map(|n| n.as_bytes().to_vec()).collect()
}

#[test]
fn assigning_a_nested_key_makes_an_inline_table() {
    let text = "\n\"hello\" = 'toml!' # comment\n['a'.b]\n";
    let mut doc = read(text);
    assert_eq!(arranged(&doc), text);
    doc.assign(&names(&["a", "b", "c", "d"]), Value::string(b"hello")).unwrap();
    let a = doc.get_table(doc.root(), b"a").unwrap();
    let b = doc.get_table(a, b"b").unwrap();
    assert!(doc.format_value(b, b"c", false));
    let expected = "\n\"hello\" = 'toml!' # comment\n['a'.b]\nc = { d = \"hello\" }\n";
    assert_eq!(arranged(&doc), expected);
    assert_eq!(as_written(&doc), expected);
    assert!(doc.format_value(b, b"c", false));
    assert_eq!(arranged(&doc), expected);
}

#[test]
fn assigning_replaces_a_value_and_keeps_its_surroundings() {
    let mut doc = read("[a]\nx   =   1   # one\ny = 2\n");
    doc.assign(&names(&["a", "x"]), Value::string(b"new")).unwrap();
    assert_eq!(arranged(&doc), "[a]\nx   =   \"new\"   # one\ny = 2\n");
}

#[test]
fn assigning_goes_into_the_last_table_of_an_array() {
    let mut doc = read("[[a]]\nx = 1\n[[a]]\nx = 2\n");
    doc.assign(&names(&["a", "y"]), Value::boolean(true)).unwrap();
    assert_eq!(arranged(&doc), "[[a]]\nx = 1\n[[a]]\nx = 2\ny = true\n");
}

#[test]
fn assigning_through_a_value_is_refused() {
    let text = "[a]\nx = 1\n";
    let mut doc = read(text);
    let err = doc.assign(&names(&["a", "x", "y"]), Value::integer(2)).unwrap_err();
    assert_eq!(err, CustomError::DuplicateKey { key: b"x".to_vec() });
    let err = doc.assign(&names(&["a"]), Value::integer(2)).unwrap_err();
    assert_eq!(err, CustomError::DuplicateKey { key: b"a".to_vec() });
    let err = doc.assign(&names(&[]), Value::integer(2)).unwrap_err();
    assert_eq!(err, CustomError::DuplicateKey { key: Vec::new() });
    assert_eq!(arranged(&doc), text);
}

#[test]
fn inserted_values_come_last_and_others_keep_their_order() {
    let mut doc = read("b = 1\na = 2\n");
    assert_eq!(doc.insert_value(doc.root(), b"c", Value::integer(3)), Ok(None));
    assert_eq!(arranged(&doc), "b = 1\na = 2\nc = 3\n");
    let old = doc.insert_value(doc.root(), b"b", Value::integer(9)).unwrap().unwrap();
    assert_eq!(old.as_integer(), Some(1));
    assert_eq!(arranged(&doc), "b = 9\na = 2\nc = 3\n");
    assert_eq!(doc.find(doc.root(), b"b"), Some(0));
    assert_eq!(doc.find(doc.root(), b"a"), Some(1));
    assert_eq!(doc.find(doc.root(), b"c"), Some(2));
    assert_eq!(doc.entry_count(doc.root()), Some(3));
    assert_eq!(doc.key_at(doc.root(), 2).unwrap().name(), b"c");
    assert!(doc.key_at(doc.root(), 3).is_none());
}

#[test]
fn inserting_under_the_name_of_a_table_is_refused() {
    let text = "[a]\n";
    let mut doc = read(text);
    let err = doc.insert_value(doc.root(), b"a", Value::integer(1)).unwrap_err();
    assert_eq!(err, CustomError::DuplicateKey { key: b"a".to_vec() });
    let err = doc.insert_value(17, b"b", Value::integer(1)).unwrap_err();
    assert_eq!(err, CustomError::DuplicateKey { key: b"b".to_vec() });
    assert_eq!(arranged(&doc), text);
}

#[test]
fn a_value_in_an_implicit_table_gives_it_a_header() {
    let mut doc = read("[a.b]\nx = 1\n");
    let a = doc.get_table(doc.root(), b"a").unwrap();
    assert_eq!(doc.insert_value(a, b"y", Value::integer(2)), Ok(None));
    assert_eq!(as_written(&doc), "[a.b]\nx = 1\n[a]\ny = 2\n");
    assert_eq!(arranged(&doc), "[a]\ny = 2\n[a.b]\nx = 1\n");
    assert!(!doc.is_in_canonical_order());
}

#[test]
fn removed_values_leave_the_others_in_order() {
    let mut doc = read("a = 1 # one\nb = 2 # two\nc = 3 # three\n[t]\n");
    let taken = doc.remove_value(doc.root(), b"b").unwrap();
    assert_eq!(taken.as_integer(), Some(2));
    assert_eq!(arranged(&doc), "a = 1 # one\nc = 3 # three\n[t]\n");
    assert!(doc.remove_value(doc.root(), b"b").is_none());
    assert!(doc.remove_value(doc.root(), b"t").is_none());
    assert!(doc.remove_value(5, b"a").is_none());
    assert_eq!(arranged(&doc), "a = 1 # one\nc = 3 # three\n[t]\n");
    assert!(doc.get_value(doc.root(), b"b").is_none());
    assert_eq!(doc.get_value(doc.root(), b"c").unwrap().as_integer(), Some(3));
}

#[test]
fn swapping_siblings_changes_canonical_order_only() {
    let text = "[a]\nx = 1\n[b]\ny = 2\n[c]\nz = 3\n";
    let mut doc = read(text);
    assert!(doc.is_in_canonical_order());
    assert!(doc.swap_entries(doc.root(), 0, 2));
    assert_eq!(as_written(&doc), text);
    assert_eq!(arranged(&doc), "[c]\nz = 3\n[b]\ny = 2\n[a]\nx = 1\n");
    assert!(!doc.is_in_canonical_order());
    assert_eq!(doc.find(doc.root(), b"c"), Some(0));
    assert_eq!(doc.find(doc.root(), b"a"), Some(2));
    assert!(doc.swap_entries(doc.root(), 0, 2));
    assert_eq!(as_written(&doc), text);
    assert_eq!(arranged(&doc), text);
    assert!(doc.is_in_canonical_order());
    assert_eq!(doc, read(text));
}

#[test]
fn swapping_keeps_nested_paths() {
    let text = "[a]\n[a.x]\nv = 1\n[a.y]\nw = 2\n[[a.z]]\n[[a.z]]\n";
    let mut doc = read(text);
    let a = doc.get_table(doc.root(), b"a").unwrap();
    assert!(doc.swap_entries(a, 2, 0));
    assert_eq!(as_written(&doc), text);
    assert_eq!(arranged(&doc), "[a]\n[[a.z]]\n[[a.z]]\n[a.y]\nw = 2\n[a.x]\nv = 1\n");
    assert!(doc.swap_entries(a, 1, 1));
    assert_eq!(as_written(&doc), text);
}

#[test]
fn swapping_is_refused_for_values_and_missing_entries() {
    let text = "v = 1\n[a]\n[b]\n";
    let mut doc = read(text);
    assert!(!doc.swap_entries(doc.root(), 0, 1));
    assert!(!doc.swap_entries(doc.root(), 1, 3));
    assert!(!doc.swap_entries(9, 0, 1));
    assert_eq!(arranged(&doc), text);
    assert!(doc.swap_entries(doc.root(), 1, 2));
    assert_eq!(arranged(&doc), "v = 1\n[b]\n[a]\n");
}

#[test]
fn tables_can_be_opened_by_hand() {
    let mut doc = Document::new();
    assert_eq!(doc.table_count(), 1);
    assert_eq!(arranged(&doc), "");
    let t = doc.open_table(doc.root(), &Key::new(b"package"), Decor::new(b"", b"\n")).unwrap();
    doc.insert_value(t, b"name", Value::string(b"demo")).unwrap();
    let d = doc.open_table(doc.root(), &Key::new(b"dependencies"), Decor::new(b"\n", b"\n")).unwrap();
    doc.insert_value(d, b"serde", Value::string(b"1.0")).unwrap();
    let b = doc.open_array(doc.root(), &Key::new(b"bin"), Decor::new(b"\n", b" # first\n")).unwrap();
    doc.insert_value(b, b"path", Value::string(b"a.rs")).unwrap();
    doc.open_array(doc.root(), &Key::new(b"bin"), Decor::new(b"", b"\n")).unwrap();
    let expected = "[package]\nname = \"demo\"\n\n[dependencies]\nserde = \"1.0\"\n\n[[bin]] # first\npath = \"a.rs\"\n[[bin]]\n";
    assert_eq!(arranged(&doc), expected);
    assert_eq!(as_written(&doc), expected);
    assert_eq!(read(expected), doc);
    let err = doc.open_table(doc.root(), &Key::new(b"package"), Decor::empty()).unwrap_err();
    assert_eq!(err, CustomError::DuplicateKey { key: b"package".to_vec() });
    let err = doc.open_array(doc.root(), &Key::new(b"package"), Decor::empty()).unwrap_err();
    assert_eq!(err, CustomError::DuplicateKey { key: b"package".to_vec() });
    let err = doc.open_table(doc.root(), &Key::new(b"bin"), Decor::empty()).unwrap_err();
    assert_eq!(err, CustomError::DuplicateKey { key: b"bin".to_vec() });
    assert_eq!(arranged(&doc), expected);
}

#[test]
fn layout_of_a_value_in_the_document() {
    let mut doc = read("a = [1,2] # c\nb = 1\n");
    assert!(doc.format_value(doc.root(), b"a", true));
    assert_eq!(arranged(&doc), "a = [\n    1,\n    2,\n] # c\nb = 1\n");
    assert!(doc.format_value(doc.root(), b"a", false));
    assert_eq!(arranged(&doc), "a = [1, 2] # c\nb = 1\n");
    assert!(doc.format_value(doc.root(), b"b", false));
    assert_eq!(arranged(&doc), "a = [1, 2] # c\nb = 1\n");
    assert!(!doc.format_value(doc.root(), b"zz", false));
}

#[test]
fn canonical_order_is_recognised() {
    assert!(read("").is_in_canonical_order());
    assert!(read("a = 1\n[t]\n[t.u]\n[[v]]\n[v.w]\n[[v]]\n").is_in_canonical_order());
    assert!(read("[a.b.c]\n").is_in_canonical_order());
    assert!(!read("[a.b]\n[a]\n").is_in_canonical_order());
    assert!(!read("[[a]]\n[b]\n[[a]]\n").is_in_canonical_order());
    assert!(!read("[a]\n[b]\n[a.c]\n").is_in_canonical_order());
    let doc = read("[a]\n[b]\n[a.c]\n");
    assert_eq!(doc.canonical_places(), vec![0, 1, 3, 2]);
}

#[test]
fn a_removed_table_takes_what_is_below_it_along() {
    let text = "top = 1\n[a]\nx = 1\n[a.b]\ny = 2\n[c]\nz = 3\n[a.b.d]\n[[a.e]]\n[c.f]\n";
    let mut doc = read(text);
    let a = doc.get_table(doc.root(), b"a").unwrap();
    let b = doc.get_table(a, b"b").unwrap();
    assert!(doc.remove_table(doc.root(), b"a"));
    assert_eq!(as_written(&doc), "top = 1\n[c]\nz = 3\n[c.f]\n");
    assert_eq!(arranged(&doc), "top = 1\n[c]\nz = 3\n[c.f]\n");
    assert!(doc.get_table(doc.root(), b"a").is_none());
    assert_eq!(doc.find(doc.root(), b"c"), Some(1));
    assert_eq!(doc.table_count(), 7);
    assert_eq!(doc.entry_count(a), Some(0));
    assert!(doc.get_value(b, b"y").is_none());
    let err = doc.insert_value(b, b"y", Value::integer(1)).unwrap_err();
    assert_eq!(err, CustomError::DuplicateKey { key: b"y".to_vec() });
    assert!(!doc.remove_table(doc.root(), b"a"));
    assert!(!doc.remove_table(doc.root(), b"top"));
    assert!(!doc.remove_table(42, b"c"));
    assert_eq!(arranged(&doc), "top = 1\n[c]\nz = 3\n[c.f]\n");
    let again = doc.open_table(doc.root(), &Key::new(b"a"), Decor::new(b"", b"\n")).unwrap();
    assert_eq!(again, 7);
    assert_eq!(arranged(&doc), "top = 1\n[c]\nz = 3\n[c.f]\n[a]\n");
}

#[test]
fn a_removed_array_of_tables_goes_as_a_whole() {
    let mut doc = read("[[a]]\nx = 1\n[a.b]\n[[a]]\nx = 2\n[c]\n");
    assert!(doc.remove_table(doc.root(), b"a"));
    assert_eq!(as_written(&doc), "[c]\n");
    assert_eq!(arranged(&doc), "[c]\n");
    assert!(doc.is_in_canonical_order());
}

#[test]
fn removing_a_nested_table_leaves_its_parent() {
    let mut doc = read("[a]\nx = 1\n[a.b]\ny = 2\n[a.c]\n");
    let a = doc.get_table(doc.root(), b"a").unwrap();
    assert!(doc.remove_table(a, b"b"));
    assert_eq!(as_written(&doc), "[a]\nx = 1\n[a.c]\n");
    assert_eq!(doc.find(a, b"c"), Some(1));
}

#[test]
fn documents_made_by_the_library_are_in_order() {
    assert!(Document::new().is_well_formed());
    let mut doc = read("a = [1, 2]\n[t]\nb = { c = 1 }\n[[u]]\n[u.v]\n[[u]]\n[x.y.z]\n");
    assert!(doc.is_well_formed());
    doc.assign(&names(&["t", "n", "m"]), Value::integer(1)).unwrap();
    assert!(doc.is_well_formed());
    assert!(doc.swap_entries(doc.root(), 1, 3));
    assert!(doc.is_well_formed());
    assert!(doc.remove_table(doc.root(), b"u"));
    assert!(doc.is_well_formed());
    doc.remove_value(doc.root(), b"a");
    assert!(doc.is_well_formed());
}

#[test]
fn documents_broken_by_hand_are_recognised() {
    let mut doc = read("[a]\n[b]\n");
    doc.order.push(1);
    assert!(!doc.is_well_formed());
    let mut doc = read("[a]\n[b]\n");
    doc.tables[2].parent = 1;
    assert!(!doc.is_well_formed());
    let mut doc = read("[a]\nx = 1\n");
    let entry = doc.tables[1].entries.pop().unwrap();
    doc.tables[0].entries.push(entry);
    let again = read("x = 2\n").tables.remove(0).entries.pop().unwrap();
    doc.tables[0].entries.push(again);
    assert!(!doc.is_well_formed());
    let mut doc = read("a = [1, 2]\n");
    match &mut doc.tables[0].entries[0].item {
        toml_edit::Item::Value(Value::Array(a)) => a.values.push(Value::boolean(true)),
        _ => unreachable!(),
    }
    assert!(!doc.is_well_formed());
    let mut doc = read("[a.b]\n");
    doc.tables.swap(1, 2);
    assert!(!doc.is_well_formed());
}

#[test]
fn values_in_order_are_recognised() {
    assert!(Value::integer(1).is_well_formed());
    let (v, _) = toml_edit::parser::value::parse_value(b"[[1, 2], [3]]", 0).unwrap();
    assert!(v.is_well_formed());
    let mut broken = toml_edit::Array::new();
    broken.values.push(Value::integer(1));
    broken.values.push(Value::string(b"a"));
    assert!(!Value::Array(broken).is_well_formed());
    let mut twice = toml_edit::InlineTable::new();
    twice.entries.push(toml_edit::InlineEntry { key: Key::new(b"a"), value: Value::integer(1) });
    twice.entries.push(toml_edit::InlineEntry { key: Key::new(b"a"), value: Value::integer(2) });
    assert!(!Value::InlineTable(twice).is_well_formed());
}

#[test]
fn tables_are_inserted_by_name() {
    let mut doc = Document::new();
    let a = doc.insert_table(doc.root(), b"a").unwrap();
    let b = doc.insert_table(a, b"b c").unwrap();
    doc.insert_value(b, b"x", Value::integer(1)).unwrap();
    let first = doc.insert_array_table(doc.root(), b"bin").unwrap();
    let second = doc.insert_array_table(doc.root(), b"bin").unwrap();
    assert!(first < second);
    doc.insert_value(second, b"y", Value::boolean(false)).unwrap();
    assert_eq!(arranged(&doc), "[a]\n[a.\"b c\"]\nx = 1\n[[bin]]\n[[bin]]\ny = false\n");
    assert_eq!(doc.get_array_table(doc.root(), b"bin", 1), Some(second));
    let err = doc.insert_table(doc.root(), b"a").unwrap_err();
    assert_eq!(err, CustomError::DuplicateKey { key: b"a".to_vec() });
    let err = doc.insert_table(doc.root(), b"bin").unwrap_err();
    assert_eq!(err, CustomError::DuplicateKey { key: b"bin".to_vec() });
    let err = doc.insert_array_table(doc.root(), b"a").unwrap_err();
    assert_eq!(err, CustomError::DuplicateKey { key: b"a".to_vec() });
    let err = doc.insert_table(99, b"z").unwrap_err();
    assert_eq!(err, CustomError::DuplicateKey { key: b"z".to_vec() });
    assert!(doc.remove_table(doc.root(), b"a"));
    let err = doc.insert_table(a, b"z").unwrap_err();
    assert_eq!(err, CustomError::DuplicateKey { key: b"z".to_vec() });
    let err = doc.insert_array_table(b, b"z").unwrap_err();
    assert_eq!(err, CustomError::DuplicateKey { key: b"z".to_vec() });
    assert_eq!(arranged(&doc), "[[bin]]\n[[bin]]\ny = false\n");
    assert!(doc.is_well_formed());
}

#[test]
fn an_implicit_table_gets_its_header_when_inserted() {
    let mut doc = read("[a.b]\n");
    let a = doc.get_table(doc.root(), b"a").unwrap();
    assert_eq!(doc.insert_table(doc.root(), b"a"), Ok(a));
    assert_eq!(as_written(&doc), "[a.b]\n[a]\n");
    assert_eq!(arranged(&doc), "[a]\n[a.b]\n");
}

#[test]
fn moving_a_table_changes_canonical_order_only() {
    let text = "v = 1\n[a]\nx = 1\n[b]\n[c]\nz = 3\n";
    let mut doc = read(text);
    assert!(doc.move_entry(doc.root(), 3, 1));
    assert_eq!(as_written(&doc), text);
    assert_eq!(arranged(&doc), "v = 1\n[c]\nz = 3\n[a]\nx = 1\n[b]\n");
    assert_eq!(doc.find(doc.root(), b"c"), Some(1));
    assert_eq!(doc.find(doc.root(), b"a"), Some(2));
    assert_eq!(doc.find(doc.root(), b"b"), Some(3));
    assert!(doc.move_entry(doc.root(), 1, 3));
    assert_eq!(arranged(&doc), text);
    assert_eq!(doc, read(text));
    assert!(doc.move_entry(doc.root(), 1, 0));
    assert_eq!(arranged(&doc), text);
    assert_eq!(as_written(&doc), text);
    assert_eq!(doc.find(doc.root(), b"a"), Some(0));
    assert!(!doc.move_entry(doc.root(), 1, 2));
    assert!(!doc.move_entry(doc.root(), 2, 4));
    assert!(!doc.move_entry(doc.root(), 4, 0));
    assert!(!doc.move_entry(7, 0, 0));
    assert!(doc.is_well_formed());
}

#[test]
fn a_new_line_brings_the_line_break_that_the_line_before_lacks() {
    let mut doc = read("a = 1");
    doc.insert_value(doc.root(), b"b", Value::integer(2)).unwrap();
    assert_eq!(arranged(&doc), "a = 1\nb = 2\n");
    let mut doc = read("[t]");
    let t = doc.get_table(doc.root(), b"t").unwrap();
    doc.insert_value(t, b"b", Value::integer(2)).unwrap();
    assert_eq!(arranged(&doc), "[t]\nb = 2\n");
    let mut doc = read("[t]\na = 1 # c");
    doc.insert_table(doc.root(), b"u").unwrap();
    assert_eq!(arranged(&doc), "[t]\na = 1 # c\n[u]\n");
    let mut doc = read("[[t]]");
    doc.insert_array_table(doc.root(), b"t").unwrap();
    assert_eq!(arranged(&doc), "[[t]]\n[[t]]\n");
    let mut doc = read("[a.b]");
    let a = doc.get_table(doc.root(), b"a").unwrap();
    doc.insert_value(a, b"x", Value::integer(1)).unwrap();
    assert_eq!(as_written(&doc), "[a.b]\n[a]\nx = 1\n");
    let mut doc = read("a = 1\n");
    assert!(!doc.has_open_end());
    doc.insert_value(doc.root(), b"b", Value::integer(2)).unwrap();
    assert_eq!(arranged(&doc), "a = 1\nb = 2\n");
    assert!(read("a = 1\n[t]").has_open_end());
    assert!(!read("").has_open_end());
}
