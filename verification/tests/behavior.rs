//! Error kinds, numeric edges and the decoder's general laws on
//! concrete inputs.

use serde_arma::array::CommaSeparated;
use serde_arma::error::DecodeError;
use serde_arma::value::Value;
use serde_arma::{from_str, Deserializer};

#[test]
fn test_null_and_bool_values() {
    let got = from_str("a=null;b=true;c=false;").unwrap();
    let expected = Value::Cls(vec![
        ("a".to_string(), Value::Null),
        ("b".to_string(), Value::Bool(true)),
        ("c".to_string(), Value::Bool(false)),
    ]);
    assert_eq!(expected, got);
}

#[test]
fn test_signed_and_float_values() {
    let got = from_str("a=-42;b=-2.75;c=0.5;").unwrap();
    let expected = Value::Cls(vec![
        ("a".to_string(), Value::Int(-42)),
        ("b".to_string(), Value::Float("-2.75".to_string())),
        ("c".to_string(), Value::Float("0.5".to_string())),
    ]);
    assert_eq!(expected, got);
}

#[test]
fn test_eof_key_without_equals() {
    assert_eq!(from_str("int"), Err(DecodeError::UnexpectedEof));
}

#[test]
fn test_eof_unterminated_string() {
    assert_eq!(from_str("a=\"hi;"), Err(DecodeError::UnexpectedEof));
}

#[test]
fn test_missing_semicolon_is_syntax_error() {
    assert_eq!(from_str("a=1 b=2;"), Err(DecodeError::SyntaxError));
}

#[test]
fn test_unrecognised_value_is_syntax_error() {
    assert_eq!(from_str("a=?;"), Err(DecodeError::SyntaxError));
}

#[test]
fn test_expected_integer_stray_characters() {
    assert_eq!(from_str("a=1x2;"), Err(DecodeError::ExpectedInteger));
}

#[test]
fn test_expected_integer_overflow() {
    assert_eq!(
        from_str("a=18446744073709551616;"),
        Err(DecodeError::ExpectedInteger)
    );
}

#[test]
fn test_expected_boolean() {
    assert_eq!(from_str("a=tru;"), Err(DecodeError::ExpectedBoolean));
}

#[test]
fn test_expected_null() {
    assert_eq!(from_str("a=nil;"), Err(DecodeError::ExpectedNull));
}

#[test]
fn test_expected_array_comma() {
    assert_eq!(from_str("a[]={1 2};"), Err(DecodeError::ExpectedArrayComma));
}

#[test]
fn test_trailing_characters() {
    assert_eq!(from_str("a=1;};"), Err(DecodeError::TrailingCharacters));
    assert_eq!(from_str("a=1;} x"), Err(DecodeError::TrailingCharacters));
}

#[test]
fn test_trailing_whitespace_is_not_an_error() {
    // only remaining non-whitespace input is trailing-characters
    let expected = Value::Cls(vec![("a".to_string(), Value::UInt(1))]);
    assert_eq!(from_str("a=1;} "), Ok(expected));
    assert_eq!(from_str("{a=1;}\n"), Ok(Value::Cls(vec![("a".to_string(), Value::UInt(1))])));
    assert_eq!(from_str("} \t"), Ok(Value::Cls(vec![])));
}

#[test]
fn test_expected_array_on_scalar() {
    let mut de = Deserializer::from_str("5;");
    assert_eq!(de.begin_array(), Err(DecodeError::ExpectedArray));
}

#[test]
fn test_expected_array_end_on_early_stop() {
    // a caller that stops after one element of {1,2} stands at the comma
    let mut de = Deserializer::from_str("{1,2};");
    de.begin_array().unwrap();
    let mut cs = CommaSeparated::new();
    let first = cs.next_element(&mut de).unwrap().unwrap();
    assert_eq!(first, Value::UInt(1));
    assert_eq!(de.end_array(), Err(DecodeError::ExpectedArrayEnd));
}

#[test]
fn test_expected_map_on_scalar() {
    let mut de = Deserializer::from_str("5;");
    assert_eq!(de.begin_class(), Err(DecodeError::ExpectedMap));
}

#[test]
fn test_unsigned_extremes() {
    let mut de = Deserializer::from_str("18446744073709551615;");
    assert_eq!(de.parse_unsigned(), Ok(u64::MAX));
    let mut de = Deserializer::from_str("+42;");
    assert_eq!(de.parse_unsigned(), Ok(42));
    let mut de = Deserializer::from_str("-1;");
    assert_eq!(de.parse_unsigned(), Err(DecodeError::ExpectedInteger));
}

#[test]
fn test_signed_extremes() {
    let mut de = Deserializer::from_str("-9223372036854775808;");
    assert_eq!(de.parse_signed(), Ok(i64::MIN));
    let mut de = Deserializer::from_str("9223372036854775807;");
    assert_eq!(de.parse_signed(), Ok(i64::MAX));
    let mut de = Deserializer::from_str("-9223372036854775809;");
    assert_eq!(de.parse_signed(), Err(DecodeError::ExpectedInteger));
    let mut de = Deserializer::from_str("+7;");
    assert_eq!(de.parse_signed(), Ok(7));
}

#[test]
fn test_float_lexeme_kept_verbatim() {
    let mut de = Deserializer::from_str("3.14159,");
    assert_eq!(de.parse_float(), Ok("3.14159".to_string()));
}

#[test]
fn test_bool_lexemes() {
    let mut de = Deserializer::from_str("true;");
    assert_eq!(de.parse_bool(), Ok(true));
    let mut de = Deserializer::from_str("false;");
    assert_eq!(de.parse_bool(), Ok(false));
}

#[test]
fn test_cursor_peek_and_next() {
    let mut de = Deserializer::from_str("ab");
    assert_eq!(de.peek_char(), Ok('a'));
    assert_eq!(de.next_char(), Ok('a'));
    assert_eq!(de.next_char(), Ok('b'));
    assert_eq!(de.next_char(), Err(DecodeError::UnexpectedEof));
}

#[test]
fn test_key_marker_stripped_and_trimmed() {
    let mut de = Deserializer::from_str("  numbers[] = {1};");
    de.skip_whitespace();
    assert_eq!(de.parse_string(false), Ok("numbers".to_string()));
    assert_eq!(de.next_char(), Ok('='));
}

#[test]
fn test_nested_class_equals_standalone_document() {
    // a nested class body decodes exactly as the same text decodes as a
    // standalone document
    let nested = from_str("class child { number=123; string=\"Hello\"; };").unwrap();
    let standalone = from_str("number=123; string=\"Hello\";").unwrap();
    match nested {
        Value::Cls(fields) => {
            assert_eq!(fields.len(), 1);
            assert_eq!(fields[0].0, "child");
            assert_eq!(fields[0].1, standalone);
        },
        _ => panic!("expected a class at top level"),
    }
}

#[test]
fn test_array_whitespace_insensitive() {
    let compact = from_str("numbers[]={1,2,3};").unwrap();
    let spread = from_str("numbers[] = {\t1 ,\r\n 2 , 3\n};").unwrap();
    assert_eq!(compact, spread);
}

#[test]
fn test_decode_twice_equal() {
    let j = "numbers[] = {1,2,3};after=\"hi\";class child{};";
    let first = from_str(j).unwrap();
    let second = from_str(j).unwrap();
    assert_eq!(first, second);
}

#[test]
fn test_document_with_outer_braces() {
    let got = from_str("{a=1;}").unwrap();
    let expected = Value::Cls(vec![("a".to_string(), Value::UInt(1))]);
    assert_eq!(expected, got);
}

#[test]
fn test_string_closed_at_end_of_input() {
    let mut de = Deserializer::from_str("\"hi\"");
    assert_eq!(de.parse_string(false), Ok("hi".to_string()));
    assert_eq!(de.peek_char(), Err(DecodeError::UnexpectedEof));
}

#[test]
fn test_empty_document_decodes_to_empty_class() {
    assert_eq!(from_str(""), Ok(Value::Cls(vec![])));
    assert_eq!(from_str("   \r\n\t"), Ok(Value::Cls(vec![])));
}

#[test]
fn test_key_beginning_with_class_letters_is_not_a_keyword() {
    // `class` introduces a nested class only when followed by whitespace
    let got = from_str("classic=1;").unwrap();
    assert_eq!(
        got,
        Value::Cls(vec![("classic".to_string(), Value::UInt(1))])
    );
}

#[test]
fn test_missing_value_is_eof() {
    assert_eq!(from_str("a="), Err(DecodeError::UnexpectedEof));
}

#[test]
fn test_class_keyword_with_scalar_value() {
    // the nested class's `{` is missing: the digit decodes as the value
    // and the statement then ends normally, mirroring the lookahead rule
    let got = from_str("class c 5;").unwrap();
    assert_eq!(got, Value::Cls(vec![("c".to_string(), Value::UInt(5))]));
}

#[test]
fn test_doubled_quote_only() {
    let got = from_str("a=\"\"\"\";").unwrap();
    assert_eq!(got, Value::Cls(vec![("a".to_string(), Value::Str("\"".to_string()))]));
}

#[test]
fn test_empty_string_value() {
    let got = from_str("a=\"\";").unwrap();
    assert_eq!(got, Value::Cls(vec![("a".to_string(), Value::Str(String::new()))]));
}

#[test]
fn test_nested_body_with_stray_brace_fails() {
    // a body whose statements consume an unmatched `}` of their own
    // leaves the wrapper's brace behind, so the class statement misses
    // its `;` — the one shape on which wrapping a body changes the
    // outcome, while the same text decodes standalone
    assert!(from_str("a=1;}").is_ok());
    assert_eq!(from_str("class c { a=1;} };"), Err(DecodeError::SyntaxError));
}
