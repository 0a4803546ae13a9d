//! End-to-end decoding scenarios: whole documents into value trees
//! (the `lib_` set) and the same documents pulled field by field through
//! the push/pull protocol (the `de_` set).

use serde_arma::class::ArmaClass;
use serde_arma::array::CommaSeparated;
use serde_arma::error::DecodeError;
use serde_arma::value::Value;
use serde_arma::{from_str, Deserializer};

fn cls(fields: Vec<(&str, Value)>) -> Value {
    Value::Cls(fields.into_iter().map(|(k, v)| (k.to_string(), v)).collect())
}

fn s(text: &str) -> Value {
    Value::Str(text.to_string())
}

#[test]
fn lib_test_struct() {
    let j = "int = 123;\nstring = \"Hello\";\n";
    let expected = cls(vec![("int", Value::UInt(123)), ("string", s("Hello"))]);
    assert_eq!(expected, from_str(j).unwrap());
}

#[test]
fn lib_test_escape() {
    let j = r#"escape = "Hello ""World""";"#;
    let expected = cls(vec![("escape", s("Hello \"World\""))]);
    assert_eq!(expected, from_str(j).unwrap());
}

#[test]
fn lib_test_array() {
    let j = r#"numbers[] = {1,2,3};after="hi";"#;
    let expected = cls(vec![
        (
            "numbers",
            Value::Arr(vec![Value::UInt(1), Value::UInt(2), Value::UInt(3)]),
        ),
        ("after", s("hi")),
    ]);
    assert_eq!(expected, from_str(j).unwrap());
}

#[test]
fn lib_test_array_newline() {
    let j = "numbers[]=\n{\n    1,\n    2,\n    3\n};\nafter=\"hi\";";
    let expected = cls(vec![
        (
            "numbers",
            Value::Arr(vec![Value::UInt(1), Value::UInt(2), Value::UInt(3)]),
        ),
        ("after", s("hi")),
    ]);
    assert_eq!(expected, from_str(j).unwrap());
}

#[test]
fn lib_test_class_newline() {
    let j = "numbers[] = {1,2,3};after=\"hi\";\nclass child\n{\n    number= 123;\n    string =\"Hello\";\n};\n    ";
    let expected = cls(vec![
        (
            "numbers",
            Value::Arr(vec![Value::UInt(1), Value::UInt(2), Value::UInt(3)]),
        ),
        ("after", s("hi")),
        (
            "child",
            cls(vec![("number", Value::UInt(123)), ("string", s("Hello"))]),
        ),
    ]);
    assert_eq!(expected, from_str(j).unwrap());
}

#[test]
fn lib_test_class_sameline() {
    let j = "numbers[] = {1,2,3};after=\"hi\";\nclass child {\n    number= 123;\n    string =\"Hello\";\n};\n    ";
    let expected = cls(vec![
        (
            "numbers",
            Value::Arr(vec![Value::UInt(1), Value::UInt(2), Value::UInt(3)]),
        ),
        ("after", s("hi")),
        (
            "child",
            cls(vec![("number", Value::UInt(123)), ("string", s("Hello"))]),
        ),
    ]);
    assert_eq!(expected, from_str(j).unwrap());
}

#[test]
fn lib_test_class_empty() {
    let j = r#"numbers[] = {1,2,3};after="hi";class child{};"#;
    let expected = cls(vec![
        (
            "numbers",
            Value::Arr(vec![Value::UInt(1), Value::UInt(2), Value::UInt(3)]),
        ),
        ("after", s("hi")),
        ("child", cls(vec![])),
    ]);
    assert_eq!(expected, from_str(j).unwrap());
}

#[test]
fn lib_test_dumb_newline() {
    let j = r#"string = "this is so dumb" \n "why would you do this";"#;
    let expected = cls(vec![("string", s("this is so dumb\nwhy would you do this"))]);
    assert_eq!(expected, from_str(j).unwrap());
}

// The `de_` set pulls the same documents through the schema-directed
// protocol, as a typed caller would.

#[derive(PartialEq, Debug)]
struct TestIntString {
    int: u32,
    string: String,
}

fn pull_u32(de: &mut Deserializer) -> u32 {
    de.skip_whitespace();
    de.parse_unsigned().unwrap() as u32
}

fn pull_string(de: &mut Deserializer) -> String {
    de.skip_whitespace();
    de.parse_string(false).unwrap()
}

fn pull_u8_array(de: &mut Deserializer) -> Vec<u8> {
    de.skip_whitespace();
    de.begin_array().unwrap();
    let mut cs = CommaSeparated::new();
    let mut out: Vec<u8> = Vec::new();
    while let Some(v) = cs.next_element(de).unwrap() {
        match v {
            Value::UInt(n) => out.push(n as u8),
            _ => panic!("expected a number"),
        }
    }
    de.end_array().unwrap();
    out
}

#[test]
fn de_test_struct() {
    let j = "int = 123;\nstring = \"Hello\";\n";
    let mut de = Deserializer::from_str(j);
    let mut ac = ArmaClass::new();
    assert_eq!(ac.next_key(&mut de).unwrap().unwrap(), "int");
    let int = pull_u32(&mut de);
    ac.end_value(&mut de).unwrap();
    assert_eq!(ac.next_key(&mut de).unwrap().unwrap(), "string");
    let string = pull_string(&mut de);
    ac.end_value(&mut de).unwrap();
    assert_eq!(ac.next_key(&mut de).unwrap(), None);
    let expected = TestIntString { int: 123, string: "Hello".to_string() };
    assert_eq!(expected, TestIntString { int, string });
}

#[test]
fn de_test_escape() {
    let j = r#"escape = "Hello ""World""";"#;
    let mut de = Deserializer::from_str(j);
    let mut ac = ArmaClass::new();
    assert_eq!(ac.next_key(&mut de).unwrap().unwrap(), "escape");
    let escape = pull_string(&mut de);
    ac.end_value(&mut de).unwrap();
    assert_eq!(ac.next_key(&mut de).unwrap(), None);
    assert_eq!(escape, "Hello \"World\"");
}

#[test]
fn de_test_array() {
    let j = r#"numbers[] = {1,2,3};after="hi";"#;
    let mut de = Deserializer::from_str(j);
    let mut ac = ArmaClass::new();
    assert_eq!(ac.next_key(&mut de).unwrap().unwrap(), "numbers");
    let numbers = pull_u8_array(&mut de);
    ac.end_value(&mut de).unwrap();
    assert_eq!(ac.next_key(&mut de).unwrap().unwrap(), "after");
    let after = pull_string(&mut de);
    ac.end_value(&mut de).unwrap();
    assert_eq!(ac.next_key(&mut de).unwrap(), None);
    assert_eq!(numbers, vec![1, 2, 3]);
    assert_eq!(after, "hi");
}

#[test]
fn de_test_array_newline() {
    let j = "numbers[]=\n{\n    1,\n    2,\n    3\n};\nafter=\"hi\";";
    let mut de = Deserializer::from_str(j);
    let mut ac = ArmaClass::new();
    assert_eq!(ac.next_key(&mut de).unwrap().unwrap(), "numbers");
    let numbers = pull_u8_array(&mut de);
    ac.end_value(&mut de).unwrap();
    assert_eq!(ac.next_key(&mut de).unwrap().unwrap(), "after");
    let after = pull_string(&mut de);
    ac.end_value(&mut de).unwrap();
    assert_eq!(ac.next_key(&mut de).unwrap(), None);
    assert_eq!(numbers, vec![1, 2, 3]);
    assert_eq!(after, "hi");
}

fn pull_child(de: &mut Deserializer, ac: &mut ArmaClass) -> (u32, String) {
    assert!(ac.next_value_is_class());
    de.skip_whitespace();
    de.begin_class().unwrap();
    let mut inner = ArmaClass::new();
    assert_eq!(inner.next_key(de).unwrap().unwrap(), "number");
    let number = pull_u32(de);
    inner.end_value(de).unwrap();
    assert_eq!(inner.next_key(de).unwrap().unwrap(), "string");
    let string = pull_string(de);
    inner.end_value(de).unwrap();
    assert_eq!(inner.next_key(de).unwrap(), None);
    ac.end_value(de).unwrap();
    (number, string)
}

#[test]
fn de_test_class_newline() {
    let j = "numbers[] = {1,2,3};after=\"hi\";\nclass child\n{\n    number= 123;\n    string =\"Hello\";\n};\n    ";
    let mut de = Deserializer::from_str(j);
    let mut ac = ArmaClass::new();
    assert_eq!(ac.next_key(&mut de).unwrap().unwrap(), "numbers");
    let numbers = pull_u8_array(&mut de);
    ac.end_value(&mut de).unwrap();
    assert_eq!(ac.next_key(&mut de).unwrap().unwrap(), "after");
    let after = pull_string(&mut de);
    ac.end_value(&mut de).unwrap();
    assert_eq!(ac.next_key(&mut de).unwrap().unwrap(), "child");
    let (number, string) = pull_child(&mut de, &mut ac);
    assert_eq!(ac.next_key(&mut de).unwrap(), None);
    assert_eq!(numbers, vec![1, 2, 3]);
    assert_eq!(after, "hi");
    assert_eq!(number, 123);
    assert_eq!(string, "Hello");
}

#[test]
fn de_test_class_sameline() {
    let j = "numbers[] = {1,2,3};after=\"hi\";\nclass child {\n    number= 123;\n    string =\"Hello\";\n};\n    ";
    let mut de = Deserializer::from_str(j);
    let mut ac = ArmaClass::new();
    assert_eq!(ac.next_key(&mut de).unwrap().unwrap(), "numbers");
    let numbers = pull_u8_array(&mut de);
    ac.end_value(&mut de).unwrap();
    assert_eq!(ac.next_key(&mut de).unwrap().unwrap(), "after");
    let after = pull_string(&mut de);
    ac.end_value(&mut de).unwrap();
    assert_eq!(ac.next_key(&mut de).unwrap().unwrap(), "child");
    let (number, string) = pull_child(&mut de, &mut ac);
    assert_eq!(ac.next_key(&mut de).unwrap(), None);
    assert_eq!(numbers, vec![1, 2, 3]);
    assert_eq!(after, "hi");
    assert_eq!(number, 123);
    assert_eq!(string, "Hello");
}

#[test]
fn de_test_class_empty() {
    let j = r#"numbers[] = {1,2,3};after="hi";class child{};"#;
    let mut de = Deserializer::from_str(j);
    let mut ac = ArmaClass::new();
    assert_eq!(ac.next_key(&mut de).unwrap().unwrap(), "numbers");
    let numbers = pull_u8_array(&mut de);
    ac.end_value(&mut de).unwrap();
    assert_eq!(ac.next_key(&mut de).unwrap().unwrap(), "after");
    let after = pull_string(&mut de);
    ac.end_value(&mut de).unwrap();
    assert_eq!(ac.next_key(&mut de).unwrap().unwrap(), "child");
    assert!(ac.next_value_is_class());
    let child = ac.next_value(&mut de).unwrap();
    assert_eq!(child, Value::Cls(vec![]));
    assert_eq!(ac.next_key(&mut de).unwrap(), None);
    assert_eq!(numbers, vec![1, 2, 3]);
    assert_eq!(after, "hi");
}

#[test]
fn de_test_dumb_newline() {
    let j = r#"string = "this is so dumb" \n "why would you do this";"#;
    let mut de = Deserializer::from_str(j);
    let mut ac = ArmaClass::new();
    assert_eq!(ac.next_key(&mut de).unwrap().unwrap(), "string");
    let string = pull_string(&mut de);
    ac.end_value(&mut de).unwrap();
    assert_eq!(ac.next_key(&mut de).unwrap(), None);
    assert_eq!(string, "this is so dumb\nwhy would you do this");
}
