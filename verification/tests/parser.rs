use toml_edit::parser::key::key;
use toml_edit::parser::numbers::{float, integer};
use toml_edit::parser::strings;
use toml_edit::parser::strings::string;
use toml_edit::parser::trivia::ws_comment_newline;
use toml_edit::parser::value::value;
use toml_edit::parser::document::TomlParser;
use toml_edit::value::Value;

fn chars(s: &str) -> Vec<char> {
    s.chars().collect()
}

fn parse_value(input: &str) -> Value {
    let cs = chars(input);
    let (end, v) = value(&cs, 0).expect("a value");
    assert_eq!(end, cs.len());
    v
}

fn assert_value_roundtrip(input: &str) {
    let v = parse_value(input);
    assert_eq!(v.to_toml_string(), input);
}

fn assert_string_eq(input: &str, expected: &str) {
    let cs = chars(input);
    let (end, v) = string(&cs, 0).expect("a string");
    assert_eq!(v, expected);
    assert_eq!(end, cs.len());
}

fn assert_float_eq(input: &str, expected: f64) {
    let cs = chars(input);
    let (end, text) = float(&cs, 0).expect("a float");
    let v: f64 = text.parse().expect("a float's text");
    assert!((expected - v).abs() < std::f64::EPSILON);
    assert_eq!(end, cs.len());
}

#[test]
fn integers() {
    let cases = [
        ("+99", 99),
        ("42", 42),
        ("0", 0),
        ("-17", -17),
        ("1_000", 1_000),
        ("5_349_221", 5_349_221),
        ("1_2_3_4_5", 1_2_3_4_5),
        (&std::i64::MIN.to_string()[..], std::i64::MIN),
        (&std::i64::MAX.to_string()[..], std::i64::MAX),
    ];
    for &(input, expected) in &cases {
        let cs = chars(input);
        let (end, v) = integer(&cs, 0).expect("an integer");
        assert_eq!(v, expected);
        assert_eq!(end, cs.len());
    }

    let overflow = "1000000000000000000000000000000000";
    let cs = chars(overflow);
    assert!(integer(&cs, 0).is_none());
}

#[test]
fn floats() {
    let cases = [
        ("+1.0", 1.0),
        ("3.1419", 3.1419),
        ("-0.01", -0.01),
        ("5e+22", 5e+22),
        ("1e6", 1e6),
        ("-2E-2", -2E-2),
        ("6.626e-34", 6.626e-34),
        ("9_224_617.445_991_228_313", 9_224_617.445_991_228_313),
        ("-1.7976931348623157e+308", std::f64::MIN),
        ("1.7976931348623157e+308", std::f64::MAX),
    ];
    for &(input, expected) in &cases {
        assert_float_eq(input, expected);
    }
}

#[test]
fn basic_string() {
    let input =
        r#""I'm a string. \"You can quote me\". Name\tJos\u00E9\nLocation\tSF. \U0002070E""#;
    assert_string_eq(
        input,
        "I\'m a string. \"You can quote me\". Name\tJosé\nLocation\tSF. \u{2070E}",
    );
}

#[test]
fn ml_basic_string() {
    let cases = [
        (
            r#""""
Roses are red
Violets are blue""""#,
            r#"Roses are red
Violets are blue"#,
        ),
        (r#"""" \""" """"#, " \"\"\" "),
        (r#"""" \\""""#, " \\"),
    ];

    for &(input, expected) in &cases {
        assert_string_eq(input, expected);
    }

    let invalid_cases = [r#""""  """#, r#""""  \""""#];

    for input in &invalid_cases {
        let cs = chars(input);
        assert!(strings::ml_basic_string(&cs, 0).is_none());
    }
}

#[test]
fn ml_basic_string_escape_ws() {
    let inputs = [
        "\"The quick brown fox jumps over the lazy dog.\"",
        r#""""
The quick brown \


  fox jumps over \
    the lazy dog.""""#,
        r#""""\
       The quick brown \
       fox jumps over \
       the lazy dog.\
       """"#,
    ];
    for input in &inputs {
        assert_string_eq(input, "The quick brown fox jumps over the lazy dog.");
    }
    let empties = [
        r#""""\
       """"#,
        r#""""
\
  \
""""#,
    ];
    for empty in &empties {
        assert_string_eq(empty, "");
    }
}

#[test]
fn literal_string() {
    let inputs = [
        r#"'C:\Users\nodejs\templates'"#,
        r#"'\\ServerX\admin$\system32\'"#,
        r#"'Tom "Dubs" Preston-Werner'"#,
        r#"'<\i\c*\s*>'"#,
    ];

    for input in &inputs {
        assert_string_eq(input, &input[1..input.len() - 1]);
    }
}

#[test]
fn ml_literal_string() {
    let input = r#"'''I [dw]on't need \d{2} apples'''"#;
    assert_string_eq(input, &input[3..input.len() - 3]);
    let input = r#"'''
The first newline is
trimmed in raw strings.
   All other whitespace
   is preserved.
'''"#;
    assert_string_eq(input, &input[4..input.len() - 3]);
}

fn assert_date_time(input: &str, check: fn(&toml_edit::datetime::Datetime) -> bool) {
    let v = parse_value(input);
    assert_eq!(v.to_toml_string(), input);
    assert!(v.is_date_time());
    assert!(check(v.as_date_time().unwrap()));
}

#[test]
fn offset_date_time() {
    let inputs = [
        "1979-05-27T07:32:00Z",
        "1979-05-27T00:32:00-07:00",
        "1979-05-27T00:32:00.999999-07:00",
    ];
    for input in &inputs {
        assert_date_time(input, |d| d.is_offset_date_time());
    }
}

#[test]
fn local_date_time() {
    let inputs = ["1979-05-27T07:32:00", "1979-05-27T00:32:00.999999"];
    for input in &inputs {
        assert_date_time(input, |d| d.is_local_date_time());
    }
}

#[test]
fn local_date() {
    let inputs = ["1979-05-27", "2017-07-20"];
    for input in &inputs {
        assert_date_time(input, |d| d.is_local_date());
    }
}

#[test]
fn local_time() {
    let inputs = ["07:32:00", "00:32:00.999999"];
    for input in &inputs {
        assert_date_time(input, |d| d.is_local_time());
    }
}

#[test]
fn trivia() {
    let inputs = [
        "",
        r#" "#,
        r#"
"#,
        r#"
# comment

# comment2


"#,
        r#"
        "#,
        r#"# comment
# comment2


   "#,
    ];
    for input in &inputs {
        let cs = chars(input);
        let end = ws_comment_newline(&cs, 0);
        assert_eq!(end, cs.len());
        let t: String = cs[..end].iter().collect();
        assert_eq!(&t, input);
    }
}

#[test]
fn arrays() {
    let inputs = [
        r#"[]"#,
        r#"[   ]"#,
        r#"[
  1, 2, 3
]"#,
        r#"[
  1,
  2, # this is ok
]"#,
        r#"[# comment
# comment2


   ]"#,
        r#"[# comment
# comment2
      1

#sd
,
# comment3

   ]"#,
        r#"[1]"#,
        r#"[1,]"#,
        r#"[ "all", 'strings', """are the same""", '''type''']"#,
        r#"[ 100, -2,]"#,
        r#"[1, 2, 3]"#,
        r#"[ [ 1, 2 ], [3, 4, 5] ]"#,
        r#"[1.1, 2.1, 3.1]"#,
        r#"["a", "b", "c"]"#,
        r#"[ [ 1, 2 ], [3, 4, 5] ]"#,
        r#"[ [ 1, 2 ], ["a", "b", "c"] ]"#,
        r#"[ { x = 1, a = "2" }, {a = "a",b = "b",     c =    "c"} ]"#,
    ];
    for input in &inputs {
        assert_value_roundtrip(input);
    }

    let invalid_inputs = [r#"["#, r#"[,]"#, r#"[,2]"#, r#"[1e165,,]"#, r#"[ 1, 2.0 ]"#];
    for input in &invalid_inputs {
        let cs = chars(input);
        assert!(value(&cs, 0).is_none());
    }
}

#[test]
fn inline_tables() {
    let inputs = [
        r#"{}"#,
        r#"{   }"#,
        r#"{a = 1e165}"#,
        r#"{ hello = "world", a = 1}"#,
    ];
    for input in &inputs {
        assert_value_roundtrip(input);
    }
    let invalid_inputs = [r#"{a = 1e165"#, r#"{ hello = "world", a = 2, hello = 1}"#];
    for input in &invalid_inputs {
        let cs = chars(input);
        assert!(value(&cs, 0).is_none());
    }
}

#[test]
fn keys() {
    let cases = [
        ("a", "a"),
        (r#""hello\n ""#, "hello\n "),
        (r#"'hello\n '"#, "hello\\n "),
    ];

    for &(input, expected) in &cases {
        let cs = chars(input);
        let (end, ks) = key(&cs, 0).expect("a key");
        assert_eq!(ks.len(), 1);
        assert_eq!(ks[0].get(), expected);
        assert_eq!(end, cs.len());
    }
}

#[test]
fn values() {
    let inputs = [
        "1979-05-27T00:32:00.999999",
        "-239",
        "1e200",
        "9_224_617.445_991_228_313",
        r#"'''I [dw]on't need \d{2} apples'''"#,
        r#"'''
The first newline is
trimmed in raw strings.
   All other whitespace
   is preserved.
'''"#,
        r#""Jos\u00E9\n""#,
        r#"{ hello = "world", a = 1}"#,
        r#"[ { x = 1, a = "2" }, {a = "a",b = "b",     c =    "c"} ]"#,
    ];
    for input in &inputs {
        assert_value_roundtrip(input);
    }
}

#[test]
fn documents() {
    let documents = [r#"
# This is a TOML document.

title = "TOML Example"

    [owner]
    name = "Tom Preston-Werner"
    dob = 1979-05-27T07:32:00-08:00 # First class dates

    [database]
    server = "192.168.1.1"
    ports = [ 8001, 8001, 8002 ]
    connection_max = 5000
    enabled = true

    [servers]

    # Indentation (tabs and/or spaces) is allowed but not required
[servers.alpha]
    ip = "10.0.0.1"
    dc = "eqdc10"

    [servers.beta]
    ip = "10.0.0.2"
    dc = "eqdc10"

    [clients]
    data = [ ["gamma", "delta"], [1, 2] ]

    # Line breaks are OK when inside arrays
hosts = [
    "alpha",
    "omega"
]
"#];
    for document in &documents {
        let doc = TomlParser::parse(document);
        assert!(doc.is_ok());
        let doc = doc.unwrap();

        assert_eq!(&doc.to_toml_string(), document);
    }
}
