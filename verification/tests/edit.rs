use toml_edit::array::decorate_array;
use toml_edit::datetime::{Date, Datetime, Offset, Time};
use toml_edit::rfc3339::{LocalDate, LocalDateTime, LocalTime, OffsetDateTime};
use toml_edit::encode::to_string_repr;
use toml_edit::integer::TomlIntegerFormat;
use toml_edit::key::Key;
use toml_edit::parser::document::TomlParser;
use toml_edit::parser::value::parse_value;
use toml_edit::string::{TomlKeyBuilder, TomlStringBuilder};
use toml_edit::value::{Array, ArrayOfTables, Formatted, InlineTable, Item, Table, Value};

fn value(s: &str) -> Value {
    parse_value(s).expect("a value")
}

fn array(s: &str) -> Array {
    match value(s) {
        Value::Array(a) => a,
        _ => panic!("not an array"),
    }
}

fn inline_table(s: &str) -> InlineTable {
    match value(s) {
        Value::InlineTable(t) => t,
        _ => panic!("not an inline table"),
    }
}

fn text_of_array(a: Array) -> String {
    Value::Array(a).to_toml_string()
}

fn text_of_inline_table(t: InlineTable) -> String {
    Value::InlineTable(t).to_toml_string()
}

#[test]
fn array_len_and_get() {
    let a = array("[1, 2, 3]");
    assert_eq!(a.len(), 3);
    assert!(!a.is_empty());
    assert_eq!(a.get(1).and_then(|v| v.as_integer()), Some(2));
    assert!(a.get(3).is_none());
    assert!(array("[]").is_empty());
}

#[test]
fn array_push_decorates() {
    let mut a = array("[]");
    a.push(value("1"));
    a.push(value("2").decorated("  ", "  "));
    assert_eq!(text_of_array(a), "[1, 2]");
}

#[test]
fn array_push_formatted_keeps_decor() {
    let mut a = array("[1]");
    a.push_formatted(value("2").decorated("  ", "  "));
    assert_eq!(text_of_array(a), "[1,  2  ]");
}

#[test]
fn array_insert_and_remove() {
    let mut a = array("[1, 3]");
    a.insert(1, value("2"));
    assert_eq!(text_of_array(a), "[1, 2, 3]");
    let mut a = array("[1, 3]");
    a.insert_formatted(0, value("0"));
    assert_eq!(text_of_array(a), "[0,1, 3]");
    let mut a = array("[1, 2, 3,]");
    let removed = a.remove(1);
    assert_eq!(removed.as_integer(), Some(2));
    assert_eq!(text_of_array(a), "[1, 3,]");
}

#[test]
fn array_remove_last_drops_trailing_comma() {
    let mut a = array("[1,]");
    a.remove(0);
    assert!(a.is_empty());
    assert_eq!(text_of_array(a), "[]");
}

#[test]
fn array_replace_keeps_decor() {
    let mut a = array("[1,  2 ]");
    let old = a.replace(1, value("5"));
    assert_eq!(old.as_integer(), Some(2));
    assert_eq!(text_of_array(a), "[1,  5 ]");
    let mut a = array("[1,  2 ]");
    a.replace_formatted(1, value("5"));
    assert_eq!(text_of_array(a), "[1,5]");
}

#[test]
fn array_fmt() {
    let mut a = array("[ 1 ,2,   3 ]");
    a.fmt();
    assert_eq!(text_of_array(a), "[1, 2, 3]");
    let mut a = array("[ 1 ,2 ]");
    decorate_array(&mut a);
    assert_eq!(text_of_array(a), "[1, 2]");
}

#[test]
fn inline_table_get_insert_remove() {
    let mut t = inline_table("{ a = 1, b = 2 }");
    assert_eq!(t.len(), 2);
    assert!(t.contains_key("a"));
    assert!(!t.contains_key("c"));
    assert_eq!(t.get("b").and_then(|v| v.as_integer()), Some(2));
    let old = t.insert_formatted(&Key::new("a"), value("3"));
    assert_eq!(old.and_then(|v| v.as_integer()), Some(1));
    assert_eq!(t.get("a").and_then(|v| v.as_integer()), Some(3));
    let removed = t.remove("b");
    assert!(matches!(removed, Some(Item::Value(_))));
    assert_eq!(t.len(), 1);
    assert!(t.remove("b").is_none());
}

#[test]
fn inline_table_insert_moves_key_last() {
    let mut t = inline_table("{a = 1, b = 2}");
    t.insert_formatted(&Key::new("a"), value("3"));
    t.fmt();
    assert_eq!(text_of_inline_table(t), "{ b = 2, a = 3 }");
}

#[test]
fn inline_table_new_clear_fmt() {
    let mut t = InlineTable::new();
    assert!(t.is_empty());
    t.insert_formatted(&Key::new("x"), value("1"));
    t.insert_formatted(&Key::new("y z"), value("true"));
    t.fmt();
    assert_eq!(text_of_inline_table(t), r#" { x = 1, "y z" = true }"#);
    let mut t = inline_table("{a=1}");
    t.clear();
    assert!(t.is_empty());
    assert_eq!(text_of_inline_table(t), "{}");
}

#[test]
fn inline_table_decor_of_key() {
    let t = inline_table("{ a  = 1 }");
    let d = t.decor("a").expect("a decor");
    assert_eq!(d.prefix(), Some(" "));
    assert_eq!(d.suffix(), Some("  "));
    assert!(t.decor("b").is_none());
}

#[test]
fn array_of_tables_operations() {
    let mut a = ArrayOfTables::new();
    assert!(a.is_empty());
    a.push(Table::new());
    a.push(Table::new());
    assert_eq!(a.len(), 2);
    assert!(a.get(1).is_some());
    assert!(a.get(2).is_none());
    a.remove(0);
    assert_eq!(a.len(), 1);
    a.clear();
    assert!(a.is_empty());
}

#[test]
fn array_of_tables_into_array() {
    let doc = TomlParser::parse("[[t]]\na = 1\n[[t]]\nb = \"x\"\n").expect("a document");
    let item = doc.as_table().get("t").expect("an item");
    let tables = match item {
        Item::ArrayOfTables(a) => a,
        _ => panic!("not an array of tables"),
    };
    let mut copy = ArrayOfTables::new();
    for i in 0..tables.len() {
        let src = tables.get(i).unwrap();
        let mut t = Table::new();
        for kv in src.items() {
            let v = match kv.value() {
                Item::Value(v) => v.to_toml_string(),
                _ => panic!("not a value"),
            };
            t.insert_formatted(kv.key(), Item::Value(value(v.trim())));
        }
        copy.push(t);
    }
    let a = copy.into_array();
    assert_eq!(text_of_array(a), r#" [{ a = 1 }, { b = "x" }]"#);
}

#[test]
fn table_fmt() {
    let mut doc = TomlParser::parse("a=1\nb   =    2\n").expect("a document");
    doc.as_table_mut().fmt();
    assert_eq!(doc.to_toml_string(), "a = 1\nb = 2\n");
}

#[test]
fn table_insert_moves_key_last() {
    let mut doc = TomlParser::parse("a = 1\nb = 2\n").expect("a document");
    let old = doc.as_table_mut().insert_formatted(&Key::new("a"), Item::Value(value("3").decorated(" ", "")));
    assert!(matches!(old, Some(Item::Value(_))));
    assert_eq!(doc.to_toml_string(), "b = 2\na = 3\n");
}

#[test]
fn table_get_after_insert_and_remove() {
    let mut t = Table::new();
    t.insert_formatted(&Key::new("k"), Item::Value(value("1")));
    t.insert_formatted(&Key::new("other"), Item::Value(value("2")));
    assert_eq!(t.get("k").and_then(|i| i.as_value()).and_then(|v| v.as_integer()), Some(1));
    t.insert_formatted(&Key::new("k"), Item::Value(value("7")));
    assert_eq!(t.get("k").and_then(|i| i.as_value()).and_then(|v| v.as_integer()), Some(7));
    assert_eq!(t.get("other").and_then(|i| i.as_value()).and_then(|v| v.as_integer()), Some(2));
    assert_eq!(t.len(), 2);
    assert!(t.remove("k").is_some());
    assert!(t.get("k").is_none());
    assert!(t.remove("k").is_none());
}

#[test]
fn integer_written_reads_back() {
    let cases: [(TomlIntegerFormat, i128, &str); 5] = [
        (TomlIntegerFormat::new(), -17, "-17"),
        (TomlIntegerFormat::new().as_hex_upper(), 255, "0xFF"),
        (TomlIntegerFormat::new().as_hex_lower(), 255, "0xff"),
        (TomlIntegerFormat::new().as_octal(), 8, "0o10"),
        (TomlIntegerFormat::new().as_binary(), 5, "0b101"),
    ];
    for (format, n, text) in cases {
        let written = format.format(n).expect("formattable").to_toml_value();
        assert_eq!(written, text);
        assert_eq!(value(&written).as_integer(), Some(n as i64));
    }
}

#[test]
fn string_written_reads_back() {
    let cases = [
        "",
        "plain",
        "with \"quotes\"",
        "back\\slash",
        "back\\slash and 'one' apostrophe",
        "two\nlines",
        "two\nlines with \\ and ''",
        "tab\tand bell\u{7}",
        "''quotes'' at the \\ start",
    ];
    for s in cases {
        let repr = to_string_repr(s, None, None);
        let v = value(repr.as_raw());
        assert_eq!(v.as_str(), Some(s), "{}", repr.as_raw());
    }
}

#[test]
fn key_written_reads_back() {
    for k in ["bare-key_1", "with space", "quote\"d", "", "tab\t", "ünï"] {
        let key = Key::new(k);
        let back = Key::from_str(key.repr().as_raw()).expect("a key");
        assert_eq!(back.get(), k);
    }
    assert_eq!(Key::new("with space").repr().as_raw(), "\"with space\"");
    assert_eq!(Key::new("bare").repr().as_raw(), "bare");
}

#[test]
fn formatted_accessors() {
    let f = Formatted::new(String::from("hi"));
    assert_eq!(f.raw(), "\"hi\"");
    assert_eq!(f.prefix(), None);
    assert_eq!(f.suffix(), None);
    match value("'hi'").decorated(" ", "  ") {
        Value::String(f) => {
            assert_eq!(f.raw(), "'hi'");
            assert_eq!(f.prefix(), Some(" "));
            assert_eq!(f.suffix(), Some("  "));
        },
        _ => panic!("not a string"),
    }
}

#[test]
fn duplicate_key_is_refused() {
    let err = TomlParser::parse("a = 1\na = 2\n").err().expect("an error");
    assert!(err.message().contains("Duplicate key `a`"), "{}", err.message());
}

#[test]
fn unparsed_text_is_refused() {
    assert!(parse_value("1 2").is_err());
    assert!(TomlParser::parse("a = 1 b\n").is_err());
}

#[test]
fn doc_example_roundtrip() {
    let toml = "\n\"hello\" = 'toml!' # comment\n['a'.b]\n    ";
    let doc = TomlParser::parse(toml).expect("a document");
    assert_eq!(doc.to_toml_string(), toml);
}

#[test]
fn value_from_text_guesses_delimiters() {
    let v = Value::from_str_guess("abc");
    assert_eq!(v.to_toml_string(), "\"abc\"");
    assert_eq!(v.as_str(), Some("abc"));
    let v = Value::from_str_guess("'quoted'");
    assert_eq!(v.to_toml_string(), "'quoted'");
    assert_eq!(v.as_str(), Some("quoted"));
    let v = Value::from_str_guess("a\"b");
    assert_eq!(v.to_toml_string(), "'a\"b'");
    assert_eq!(v.as_str(), Some("a\"b"));
    let v = Value::from_str_guess("it's \"both\"");
    assert_eq!(v.to_toml_string(), "'''it's \"both\"'''");
    assert_eq!(v.as_str(), Some("it's \"both\""));
}

#[test]
fn values_from_plain_values() {
    assert_eq!(Value::from_i64(-5).to_toml_string(), " -5");
    assert_eq!(Value::from_bool(true).to_toml_string(), " true");
    assert_eq!(Value::from_i64(42).to_toml_string(), " 42");
    assert_eq!(Value::from_i64(42).decorated(" ", " ").to_toml_string(), " 42 ");
    let a = Array::from_values(vec![Value::from_i64(1), Value::from_bool(false)]);
    assert_eq!(text_of_array(a), " [1, false]");
}

#[test]
fn plain_document_roundtrip() {
    let docs = [
        "",
        "# only a comment\n",
        "a = 1\nb = \"two\" # note\n\n[t]\nc = [1, 2]\n  d = { e = 'f' }\n\n# end\n  ",
        "\n\n[x]\n[y]\nz=true\n",
        "[[bin]]\nname = \"a\"\n\n[[bin]]\nname = \"b\"\n[deps]\nx = \"1\"\n[[test]]\n",
    ];
    for d in docs {
        let doc = TomlParser::parse(d).expect("a document");
        assert_eq!(doc.to_toml_string(), d);
    }
}

#[test]
fn table_entry_adds_or_edits() {
    let mut doc = TomlParser::parse("a = 1\n").expect("a document");
    *doc.as_table_mut().entry("b") = Item::Value(Value::from_i64(2).decorated(" ", ""));
    assert_eq!(doc.to_toml_string(), "a = 1\nb = 2\n");
    *doc.as_table_mut().entry("a") = Item::Value(Value::from_bool(true).decorated(" ", ""));
    assert_eq!(doc.to_toml_string(), "a = true\nb = 2\n");
    let e = doc.as_table_mut().entry("c");
    assert!(e.is_none());
    assert_eq!(doc.as_table().len(), 2);
    *doc.as_table_mut().entry_format(&Key::new("with space")) = Item::Value(Value::from_i64(3).decorated(" ", ""));
    assert_eq!(doc.to_toml_string(), "a = true\nb = 2\n\"with space\" = 3\n");
}

#[test]
fn datetime_write_read() {
    let date = Date { year: 1979, month: 5, day: 27 };
    let time = Time { hour: 7, minute: 32, second: 0, nanosecond: 500_000_000 };
    let cases = [
        (
            Datetime { date: Some(date), time: Some(time), offset: Some(Offset::Custom { hours: -8, minutes: 0 }) },
            "1979-05-27T07:32:00.5-08:00",
        ),
        (Datetime { date: Some(date), time: Some(time), offset: Some(Offset::Z) }, "1979-05-27T07:32:00.5Z"),
        (Datetime { date: Some(date), time: None, offset: None }, "1979-05-27"),
        (
            Datetime {
                date: None,
                time: Some(Time { hour: 23, minute: 56, second: 4, nanosecond: 123_456 }),
                offset: None,
            },
            "23:56:04.000123456",
        ),
    ];
    for (dt, text) in cases {
        assert_eq!(dt.to_toml_string(), text);
        let v = parse_value(text).expect("a date-time");
        assert_eq!(v.as_date_time(), Some(&dt));
    }
}

#[test]
fn table_get_mut_changes_in_place() {
    let mut doc = TomlParser::parse("a = 1\nb = 2\n").expect("a document");
    let t = doc.as_table_mut();
    assert!(t.get_mut("zz").is_none());
    *t.get_mut("a").expect("an entry") = Item::Value(Value::from_i64(7).decorated(" ", ""));
    assert_eq!(doc.to_toml_string(), "a = 7\nb = 2\n");
}

#[test]
fn value_mut_accessors() {
    let mut v = parse_value("[1, 2]").expect("an array");
    assert!(v.as_inline_table_mut().is_none());
    v.as_array_mut().expect("an array").push(Value::from_i64(3));
    assert_eq!(v.to_toml_string(), "[1, 2, 3]");
    let mut w = parse_value("{ x = 1 }").expect("an inline table");
    assert!(w.as_array_mut().is_none());
    let t = w.as_inline_table_mut().expect("an inline table");
    assert!(t.get_mut("y").is_none());
    *t.get_mut("x").expect("a value") = Value::from_i64(5).decorated(" ", " ");
    assert_eq!(t.get("x").and_then(|x| x.as_integer()), Some(5));
    assert_eq!(w.to_toml_string(), "{ x = 5 }");
}

#[test]
fn inline_table_get_or_insert() {
    let mut t = InlineTable::new();
    *t.get_or_insert("a", Value::from_i64(1)) = Value::from_i64(2);
    assert_eq!(t.get("a").and_then(|x| x.as_integer()), Some(2));
    let kept = t.get_or_insert("a", Value::from_i64(9));
    assert_eq!(kept.as_integer(), Some(2));
    t.get_or_insert("b", Value::from_i64(3));
    assert_eq!(t.len(), 2);
    assert_eq!(t.get("b").and_then(|x| x.as_integer()), Some(3));
}

#[test]
fn array_of_tables_get_mut() {
    let mut a = ArrayOfTables::new();
    a.push(Table::new());
    assert!(a.get_mut(1).is_none());
    *a.get_mut(0).expect("a table").entry("k") = Item::Value(Value::from_bool(true).decorated(" ", ""));
    assert_eq!(a.get(0).expect("a table").to_toml_string(), "k = true\n");
}

#[test]
fn sort_values_orders_pairs_by_key() {
    let mut doc = TomlParser::parse("c = 3\nb = 2\n[t]\nz = 1\ny = 2\n").expect("a document");
    doc.as_table_mut().sort_values();
    assert_eq!(doc.to_toml_string(), "b = 2\nc = 3\n[t]\nz = 1\ny = 2\n");
}

#[test]
fn inline_table_sort_orders_pairs_by_key() {
    let mut v = parse_value("{ b = 1, a = 2, ab = 3 }").expect("an inline table");
    let t = v.as_inline_table_mut().expect("an inline table");
    t.sort();
    t.fmt();
    assert_eq!(v.to_toml_string(), "{ a = 2, ab = 3, b = 1 }");
}

#[test]
fn original_order_follows_positions() {
    let text = "a = 0\n[x]\nk = 1\n[y]\nk = 2\n";
    let mut doc = TomlParser::parse(text).expect("a document");
    assert_eq!(doc.to_string_in_original_order(), text);
    match doc.as_table_mut().get_mut("y") {
        Some(Item::Table(t)) => t.set_position(0),
        _ => panic!("a table"),
    }
    assert_eq!(doc.to_string_in_original_order(), "a = 0\n[y]\nk = 2\n[x]\nk = 1\n");
    assert_eq!(doc.to_toml_string(), text);
}

#[test]
fn item_index_reads_and_inserts() {
    let mut it = Item::Empty;
    assert!(it.index("a").is_none());
    *it.index_or_insert("a") = Item::Value(Value::from_i64(1));
    assert!(it.is_value());
    assert_eq!(it.index("a").and_then(|x| x.as_value()).and_then(|v| v.as_integer()), Some(1));
    *it.index_or_insert("a") = Item::Value(Value::from_i64(2));
    assert_eq!(it.index("a").and_then(|x| x.as_value()).and_then(|v| v.as_integer()), Some(2));
    let mut t = Item::Table(Table::new());
    assert!(t.index("k").is_none());
    *t.index_or_insert("k") = Item::Value(Value::from_bool(true));
    assert!(t.index("k").is_some());
    let v = Item::Value(Value::from_i64(3));
    assert!(v.index("k").is_none());
}

#[test]
fn chrono_date_times_read() {
    let o = OffsetDateTime::from_str("1996-12-19T16:39:57-08:00").expect("an offset date-time");
    assert_eq!(
        o.datetime,
        Datetime {
            date: Some(Date { year: 1996, month: 12, day: 19 }),
            time: Some(Time { hour: 16, minute: 39, second: 57, nanosecond: 0 }),
            offset: Some(Offset::Custom { hours: -8, minutes: 0 }),
        }
    );
    assert!(OffsetDateTime::from_str("1996-12-19T16:39:57").is_err());
    let l = LocalDateTime::from_str("1996-12-19T16:39:57").expect("a local date-time");
    assert_eq!(l.datetime.offset, None);
    assert_eq!(l.datetime.time, Some(Time { hour: 16, minute: 39, second: 57, nanosecond: 0 }));
    let d = LocalDate::from_str("1996-12-19").expect("a date");
    assert_eq!(d.date, Date { year: 1996, month: 12, day: 19 });
    let t = LocalTime::from_str("23:56:04.000123456").expect("a time");
    assert_eq!(t.time, Time { hour: 23, minute: 56, second: 4, nanosecond: 123456 });
    assert!(LocalTime::from_str("25:00:00").is_err());
}

#[test]
fn builder_texts_read_back() {
    let cases = ["", "a", "a b", "it's", "say \"hi\"", "back\\slash", "two\nlines", "tab\there", "x'y"];
    for decoded in cases {
        let k = TomlKeyBuilder::new(decoded).as_default().to_toml_key();
        let v = TomlStringBuilder::new(decoded).as_default().to_toml_value();
        let doc = TomlParser::parse(&format!("{} = {}\n", k, v)).expect("a document");
        let item = doc.as_table().get(decoded).expect("the key reads back");
        assert_eq!(item.as_value().and_then(|x| x.as_str()), Some(decoded));
    }
}
