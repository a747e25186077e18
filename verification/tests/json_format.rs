use todo_list::json::LoadError;
use todo_list::todo::Todo;

fn store_with(items: &[(&str, &str)]) -> Todo {
    let mut t = Todo::new(String::from("p"));
    for (content, created_at) in items {
        t.add_with_timestamp(String::from(*content), String::from(*created_at));
    }
    t
}

#[test]
fn save_empty_list() {
    let t = Todo::new(String::from("p"));
    assert_eq!(t.save(), "[]");
}

#[test]
fn save_one_item_exact_text() {
    let t = store_with(&[("Buy milk", "2024-01-15 09:30:00")]);
    assert_eq!(
        t.save(),
        "[{\"content\":\"Buy milk\",\"created_at\":\"2024-01-15 09:30:00\"}]"
    );
}

#[test]
fn save_two_items_exact_text() {
    let t = store_with(&[("a", "t1"), ("b", "t2")]);
    assert_eq!(
        t.save(),
        "[{\"content\":\"a\",\"created_at\":\"t1\"},{\"content\":\"b\",\"created_at\":\"t2\"}]"
    );
}

#[test]
fn save_escapes_quotes_and_controls() {
    let t = store_with(&[("a\"b\\c\nd\te", "t")]);
    assert_eq!(
        t.save(),
        "[{\"content\":\"a\\\"b\\\\c\\nd\\te\",\"created_at\":\"t\"}]"
    );
}

#[test]
fn round_trip_save_then_load() {
    let cases: &[(&str, &str)] = &[
        ("Buy milk", "2024-01-15 09:30:00"),
        ("", "2024-01-15 09:30:01"),
        ("quotes \" and \\ backslash", "2024-01-15 09:30:02"),
        ("newline\nreturn\rtab\tbackspace\u{8}formfeed\u{c}", "2024-01-15 09:30:03"),
        ("raw control \u{1} and unicode \u{e9}\u{4e16}\u{754c}", "2024-01-15 09:30:04"),
        ("Buy milk", "2024-01-15 09:30:05"),
    ];
    let t = store_with(cases);
    let saved = t.save();
    let loaded = Todo::load(String::from("p"), Some(saved.as_str())).unwrap();
    assert_eq!(loaded.items.len(), cases.len());
    for (i, (content, created_at)) in cases.iter().enumerate() {
        assert_eq!(loaded.items[i].content, *content);
        assert_eq!(loaded.items[i].created_at, *created_at);
    }
}

#[test]
fn load_missing_file_is_empty() {
    let t = Todo::load(String::from("p"), None).unwrap();
    assert_eq!(t.items.len(), 0);
    assert_eq!(t.file_path(), "p");
}

#[test]
fn load_example_text() {
    let t = Todo::load(
        String::from("p"),
        Some("[{\"content\":\"Buy milk\",\"created_at\":\"2024-01-15 09:30:00\"}]"),
    )
    .unwrap();
    assert_eq!(t.items.len(), 1);
    assert_eq!(t.items[0].content, "Buy milk");
    assert_eq!(t.items[0].created_at, "2024-01-15 09:30:00");
}

#[test]
fn load_accepts_escapes() {
    let t = Todo::load(
        String::from("p"),
        Some("[{\"content\":\"a\\\"b\\nc\\/d\",\"created_at\":\"t\"}]"),
    )
    .unwrap();
    assert_eq!(t.items.len(), 1);
    assert_eq!(t.items[0].content, "a\"b\nc/d");
}

#[test]
fn load_malformed_fails() {
    let malformed = [
        "",
        "not json",
        "{}",
        "[",
        "[]extra",
        "[{\"content\":\"a\"}]",
        "[{\"content\":\"a\",\"created_at\":\"t\"}",
        "[{\"content\":\"a\",\"created_at\":\"t\"},]",
        "[{\"content\":\"a\",\"created_at\":\"t\"}]x",
        "[{\"content\":\"a\",\"content\":\"b\"}]",
        "[{\"content\":\"unclosed,\"created_at\":\"t\"}]",
        "[{\"content\":\"bad escape \\x\",\"created_at\":\"t\"}]",
        "[{\"content\":\"raw control \u{1} here\",\"created_at\":\"t\"}]",
        "[{\"content\":\"surrogate \\ud800\",\"created_at\":\"t\"}]",
        "[{\"content\":\"short hex \\u00g1\",\"created_at\":\"t\"}]",
    ];
    for text in malformed {
        let r = Todo::load(String::from("p"), Some(text));
        assert_eq!(r.unwrap_err(), LoadError::Malformed, "text: {text}");
    }
}

#[test]
fn load_accepts_whitespace_between_tokens() {
    let t = Todo::load(
        String::from("p"),
        Some(" [ {\"content\" : \"Buy milk\" ,\n\t\"created_at\" : \"t1\" } ,\r\n {\"content\":\"b\",\"created_at\":\"t2\"} ]\n"),
    )
    .unwrap();
    assert_eq!(t.items.len(), 2);
    assert_eq!(t.items[0].content, "Buy milk");
    assert_eq!(t.items[0].created_at, "t1");
    assert_eq!(t.items[1].content, "b");
    assert_eq!(t.items[1].created_at, "t2");
}

#[test]
fn load_accepts_fields_in_either_order() {
    let t = Todo::load(
        String::from("p"),
        Some("[{\"created_at\":\"t1\",\"content\":\"a\"}]"),
    )
    .unwrap();
    assert_eq!(t.items.len(), 1);
    assert_eq!(t.items[0].content, "a");
    assert_eq!(t.items[0].created_at, "t1");
}

#[test]
fn load_accepts_unicode_escapes() {
    let t = Todo::load(
        String::from("p"),
        Some("[{\"content\":\"\\u0041\\u00e9\\u0001\\u4E16\",\"created_at\":\"t\"}]"),
    )
    .unwrap();
    assert_eq!(t.items.len(), 1);
    assert_eq!(t.items[0].content, "A\u{e9}\u{1}\u{4e16}");
}

#[test]
fn save_escapes_other_controls_as_hex() {
    let t = store_with(&[("\u{0}\u{1}\u{b}\u{1f}", "t")]);
    assert_eq!(
        t.save(),
        "[{\"content\":\"\\u0000\\u0001\\u000b\\u001f\",\"created_at\":\"t\"}]"
    );
}

#[test]
fn saved_text_reads_back_with_a_generic_json_parser() {
    let t = store_with(&[("a\"b\\c\nd\u{1}", "t1"), ("plain", "t2")]);
    let saved = t.save();
    let v: serde_json::Value = serde_json::from_str(&saved).unwrap();
    let arr = v.as_array().unwrap();
    assert_eq!(arr.len(), 2);
    assert_eq!(arr[0]["content"].as_str(), Some("a\"b\\c\nd\u{1}"));
    assert_eq!(arr[0]["created_at"].as_str(), Some("t1"));
    assert_eq!(arr[1]["content"].as_str(), Some("plain"));
    assert_eq!(arr[1]["created_at"].as_str(), Some("t2"));
}

#[test]
fn text_written_by_a_generic_json_parser_loads() {
    let mut obj = serde_json::Map::new();
    obj.insert(
        String::from("content"),
        serde_json::Value::String(String::from("from elsewhere \u{8} \"x\"")),
    );
    obj.insert(
        String::from("created_at"),
        serde_json::Value::String(String::from("2024-01-15 09:30:00")),
    );
    let v = serde_json::Value::Array(vec![serde_json::Value::Object(obj)]);
    let text = serde_json::to_string(&v).unwrap();
    let t = Todo::load(String::from("p"), Some(text.as_str())).unwrap();
    assert_eq!(t.items.len(), 1);
    assert_eq!(t.items[0].content, "from elsewhere \u{8} \"x\"");
    assert_eq!(t.items[0].created_at, "2024-01-15 09:30:00");
}
