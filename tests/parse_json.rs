use json_parser::parser::parse_json;
use json_parser::value::{JsonValue, ParseError};

fn num(v: &JsonValue) -> f64 {
    match v {
        JsonValue::Number(t) => t.parse::<f64>().unwrap(),
        other => panic!("not a number: {:?}", other),
    }
}

fn err(input: &str) -> ParseError {
    match parse_json(input) {
        Err(e) => e,
        Ok(v) => panic!("parsed {:?}", v),
    }
}

fn shape(input: &str) -> String {
    format!("{:?}", parse_json(input))
}

#[test]
fn empty_input_fails() {
    assert_eq!(err(""), ParseError::UnexpectedEndOfInput);
}

#[test]
fn blank_input_fails() {
    assert_eq!(err(" \t\r\n\u{3000}"), ParseError::UnexpectedEndOfInput);
}

#[test]
fn empty_object_and_array() {
    match parse_json("{}") {
        Ok(JsonValue::Object(m)) => assert!(m.is_empty()),
        other => panic!("{:?}", other),
    }
    match parse_json("[]") {
        Ok(JsonValue::Array(a)) => assert!(a.is_empty()),
        other => panic!("{:?}", other),
    }
    match parse_json("[ \n ]") {
        Ok(JsonValue::Array(a)) => assert!(a.is_empty()),
        other => panic!("{:?}", other),
    }
}

#[test]
fn nested_document() {
    let v = parse_json("{\"a\":1,\"b\":[true,false,null]}").unwrap();
    match v {
        JsonValue::Object(m) => {
            assert_eq!(m.len(), 2);
            assert_eq!(m[0].0, "a");
            assert_eq!(num(&m[0].1), 1.0);
            assert_eq!(m[1].0, "b");
            match &m[1].1 {
                JsonValue::Array(a) => {
                    assert_eq!(a.len(), 3);
                    assert!(matches!(a[0], JsonValue::Boolean(true)));
                    assert!(matches!(a[1], JsonValue::Boolean(false)));
                    assert!(matches!(a[2], JsonValue::Null));
                }
                other => panic!("{:?}", other),
            }
        }
        other => panic!("{:?}", other),
    }
}

#[test]
fn unicode_escape_decodes() {
    match parse_json("\"\\u0041\"") {
        Ok(JsonValue::String(s)) => assert_eq!(s, "A"),
        other => panic!("{:?}", other),
    }
    match parse_json("\"x\\u00e9\\u4E2Dy\"") {
        Ok(JsonValue::String(s)) => assert_eq!(s, "x\u{e9}\u{4e2d}y"),
        other => panic!("{:?}", other),
    }
}

#[test]
fn lone_surrogate_rejected() {
    assert_eq!(err("\"\\uD800\""), ParseError::InvalidUnicodeEscape);
    assert_eq!(err("\"\\udfff\""), ParseError::InvalidUnicodeEscape);
    // A pair of surrogate escapes is not joined either.
    assert_eq!(err("\"\\ud83d\\ude00\""), ParseError::InvalidUnicodeEscape);
}

#[test]
fn short_or_bad_unicode_escape() {
    assert_eq!(err("\"\\u12\""), ParseError::InvalidUnicodeEscape);
    assert_eq!(err("\"\\u12"), ParseError::InvalidUnicodeEscape);
    assert_eq!(err("\"\\uZZZZ\""), ParseError::InvalidUnicodeEscape);
    assert_eq!(err("\"\\u+041\""), ParseError::InvalidUnicodeEscape);
}

#[test]
fn trailing_comma_rejected() {
    assert_eq!(err("{\"a\":1,}"), ParseError::InvalidKey);
    assert_eq!(err("[1,]"), ParseError::UnexpectedCharacter(']'));
}

#[test]
fn number_then_letters_is_trailing() {
    assert_eq!(err("123abc"), ParseError::TrailingCharacters);
}

#[test]
fn partial_keywords_fail() {
    assert_eq!(err("tru"), ParseError::ExpectedBoolean);
    assert_eq!(err("fals"), ParseError::ExpectedBoolean);
    assert_eq!(err("trUe"), ParseError::ExpectedBoolean);
    assert_eq!(err("nul"), ParseError::ExpectedNull);
    assert_eq!(err("[nil]"), ParseError::ExpectedNull);
}

#[test]
fn whitespace_insensitive() {
    let spaced = shape(" { \"x\" : 1 } ");
    assert_eq!(spaced, shape("{\"x\":1}"));
    assert_eq!(shape("\n[\t1 ,\r2 ]\u{a0}"), shape("[1,2]"));
}

#[test]
fn deterministic() {
    let doc = "{\"k\": [1, {\"n\": null}, \"s\\n\"], \"k\": -0.5e-3}";
    assert_eq!(shape(doc), shape(doc));
    assert!(parse_json(doc).is_ok());
}

#[test]
fn duplicate_keys_are_kept_in_order() {
    match parse_json("{\"k\":1,\"k\":2}") {
        Ok(JsonValue::Object(m)) => {
            assert_eq!(m.len(), 2);
            assert_eq!(m[0].0, "k");
            assert_eq!(num(&m[0].1), 1.0);
            assert_eq!(m[1].0, "k");
            assert_eq!(num(&m[1].1), 2.0);
        }
        other => panic!("{:?}", other),
    }
}

#[test]
fn simple_escapes() {
    match parse_json("\"\\\"\\\\\\/\\b\\f\\n\\r\\t\"") {
        Ok(JsonValue::String(s)) => assert_eq!(s, "\"\\/\u{8}\u{c}\n\r\t"),
        other => panic!("{:?}", other),
    }
}

#[test]
fn raw_characters_are_kept() {
    match parse_json("\"h\u{e9}llo w\u{f6}rld\"") {
        Ok(JsonValue::String(s)) => assert_eq!(s, "h\u{e9}llo w\u{f6}rld"),
        other => panic!("{:?}", other),
    }
}

#[test]
fn numbers() {
    assert_eq!(num(&parse_json("1").unwrap()), 1.0);
    assert_eq!(num(&parse_json("1.0").unwrap()), 1.0);
    assert_eq!(num(&parse_json("-12.5e3").unwrap()), -12500.0);
    assert_eq!(num(&parse_json("2E-2").unwrap()), 0.02);
    assert_eq!(num(&parse_json("1e+2").unwrap()), 100.0);
    assert_eq!(num(&parse_json("007").unwrap()), 7.0);
    assert_eq!(num(&parse_json("5.").unwrap()), 5.0);
    match parse_json(" -0.25 ") {
        Ok(JsonValue::Number(t)) => assert_eq!(t, "-0.25"),
        other => panic!("{:?}", other),
    }
}

#[test]
fn invalid_numbers() {
    assert_eq!(err("1.2.3"), ParseError::InvalidNumber);
    assert_eq!(err("-"), ParseError::InvalidNumber);
    assert_eq!(err("1e"), ParseError::InvalidNumber);
    assert_eq!(err("1-2"), ParseError::InvalidNumber);
    assert_eq!(err("--1"), ParseError::InvalidNumber);
    assert_eq!(err("[1e+]"), ParseError::InvalidNumber);
}

#[test]
fn each_structural_error() {
    assert_eq!(err("x"), ParseError::UnexpectedCharacter('x'));
    assert_eq!(err("[1, @]"), ParseError::UnexpectedCharacter('@'));
    assert_eq!(err("{1:2}"), ParseError::InvalidKey);
    assert_eq!(err("{"), ParseError::InvalidKey);
    assert_eq!(err("{\"a\" 1}"), ParseError::ExpectedColon);
    assert_eq!(err("{\"a\":1 \"b\":2}"), ParseError::ExpectedCommaOrBrace);
    assert_eq!(err("{\"a\":1"), ParseError::ExpectedCommaOrBrace);
    assert_eq!(err("[1 2]"), ParseError::ExpectedCommaOrBracket);
    assert_eq!(err("[1"), ParseError::ExpectedCommaOrBracket);
    assert_eq!(err("["), ParseError::UnexpectedEndOfInput);
    assert_eq!(err("{\"a\":"), ParseError::UnexpectedEndOfInput);
}

#[test]
fn each_string_error() {
    assert_eq!(err("\"abc"), ParseError::UnterminatedString);
    assert_eq!(err("\"abc\\"), ParseError::UnterminatedString);
    assert_eq!(err("\"\\q\""), ParseError::InvalidEscapeCharacter);
}

#[test]
fn trailing_characters() {
    assert_eq!(err("{} {}"), ParseError::TrailingCharacters);
    assert_eq!(err("null x"), ParseError::TrailingCharacters);
    assert!(parse_json("null \n").is_ok());
}

#[test]
fn deep_nesting() {
    let v = parse_json("[[[{\"a\":[{}]}]]]").unwrap();
    assert_eq!(
        format!("{:?}", v),
        "Array([Array([Array([Object([(\"a\", Array([Object([])]))])])])])"
    );
}

#[test]
fn surrounding_whitespace_keeps_value() {
    let bare = shape("[1,{\"a\":\"b\"}]");
    assert!(bare.starts_with("Ok("));
    assert_eq!(shape(" \u{2028}[1,{\"a\":\"b\"}]\t\n "), bare);
    assert_eq!(shape("[1,{\"a\":\"b\"}]\u{3000}"), bare);
    assert_eq!(shape("\r\n[1,{\"a\":\"b\"}]"), bare);
}

#[test]
fn trailing_comma_between_whitespace() {
    assert_eq!(err("{ \"a\" : 1 , }"), ParseError::InvalidKey);
    assert_eq!(err("[ 1 , ]"), ParseError::UnexpectedCharacter(']'));
}

const LIMIT: &str = "179769313486231580793728971405303415079934132710037826936173778980444968292764750946649017977587207096330286416692887910946555547851940402630657488671505820681908902000708383676273854845817711531764475730270069855571366959622842914819860834936475292719074168444365510704342711559699508093042880177904174497792";
const BELOW_LIMIT: &str = "179769313486231580793728971405303415079934132710037826936173778980444968292764750946649017977587207096330286416692887910946555547851940402630657488671505820681908902000708383676273854845817711531764475730270069855571366959622842914819860834936475292719074168444365510704342711559699508093042880177904174497791";

#[test]
fn overflowing_numbers_rejected() {
    assert_eq!(err("1e400"), ParseError::InvalidNumber);
    assert_eq!(err("-1e400"), ParseError::InvalidNumber);
    assert_eq!(err("[1.7976931348623159e308]"), ParseError::InvalidNumber);
    assert_eq!(err("1e99999999999999999999999"), ParseError::InvalidNumber);
    assert_eq!(err("0.00001e314"), ParseError::InvalidNumber);
    assert_eq!(err(LIMIT), ParseError::InvalidNumber);
}

#[test]
fn largest_finite_numbers_accepted() {
    assert_eq!(num(&parse_json("1.7976931348623157e308").unwrap()), f64::MAX);
    assert_eq!(num(&parse_json("1.7976931348623158e308").unwrap()), f64::MAX);
    assert_eq!(num(&parse_json(BELOW_LIMIT).unwrap()), f64::MAX);
    assert_eq!(num(&parse_json("-1e308").unwrap()), -1e308);
    assert_eq!(num(&parse_json("0.0001e312").unwrap()), 1e308);
}

#[test]
fn limit_is_where_rounding_overflows() {
    assert!(LIMIT.parse::<f64>().unwrap().is_infinite());
    assert_eq!(BELOW_LIMIT.parse::<f64>().unwrap(), f64::MAX);
}

#[test]
fn tiny_and_zero_numbers_accepted() {
    assert_eq!(num(&parse_json("1e-400").unwrap()), 0.0);
    assert_eq!(num(&parse_json("0e99999999999999999999").unwrap()), 0.0);
    assert_eq!(num(&parse_json("000.000e5000").unwrap()), 0.0);
    assert_eq!(num(&parse_json("1e-99999999999999999999999").unwrap()), 0.0);
    assert_eq!(num(&parse_json("12345678901234567890e-10").unwrap()), 1234567890.123456789);
}
