// Reading documents: whole trees and streams of events.

use rustc_serialize::json::DecoderError::{ExpectedError, MissingFieldError, UnknownVariantError};
use rustc_serialize::json::ErrorCode::{
    ControlCharacterInString, EOFWhileParsingArray, EOFWhileParsingObject,
    EOFWhileParsingString, EOFWhileParsingValue, ExpectedColon, InvalidEscape, InvalidNumber,
    InvalidSyntax, KeyMustBeAString, LoneLeadingSurrogateInHexEscape, TrailingCharacters,
    TrailingComma, UnexpectedEndOfHexEscape,
};
use rustc_serialize::json::Json::{Array, Boolean, Null, Object, String, F64, I64, U64};
use rustc_serialize::json::JsonEvent::{
    ArrayEnd, ArrayStart, BooleanValue, Error, F64Value, NullValue, ObjectEnd, ObjectStart,
    StringValue, U64Value,
};
use rustc_serialize::json::ParserError::SyntaxError;
use rustc_serialize::json::StackElement::{Index, Key};
use rustc_serialize::json::{
    error_str, Decimal, ErrorCode, Float, Json, JsonEvent, Parser, ParserError, ParserState,
    SemiPubMethods, Stack, StackElement,
};

// The number that a decimal denotes, computed the way a reader of
// floating-point numbers adds up an integer part, a fraction and an exponent.
fn value_of(d: &Decimal) -> f64 {
    let mut res = d.integer() as f64;
    let mut dec = 1.0;
    for digit in d.fraction().iter() {
        dec /= 10.0;
        res += (*digit as f64) * dec;
    }
    if d.exponent() != 0 {
        let exp = 10_f64.powi(d.exponent() as i32);
        if d.is_exponent_negative() {
            res /= exp;
        } else {
            res *= exp;
        }
    }
    if d.is_negative() {
        res *= -1.0;
    }
    res
}

fn as_number(f: &Float) -> f64 {
    match f {
        Float::Nan => f64::NAN,
        Float::Infinity => f64::INFINITY,
        Float::NegInfinity => f64::NEG_INFINITY,
        Float::Finite(d) => value_of(d),
    }
}

fn read_number(s: &str) -> f64 {
    match Json::from_str(s) {
        Ok(F64(f)) => as_number(&f),
        other => panic!("{:?} is no floating-point number", other),
    }
}

// The decimal that is written `text`: digits, a point, digits.
fn decimal(text: &str) -> Float {
    let negative = text.starts_with('-');
    let body = text.trim_start_matches('-');
    let mut parts = body.split('.');
    let integer: u64 = parts.next().unwrap().parse().unwrap();
    let fraction: Vec<u8> = parts.next().unwrap_or("0").bytes().map(|b| b - b'0').collect();
    Float::Finite(Decimal::new(negative, integer, fraction, false, 0).unwrap())
}

fn mk_object(items: &[(std::string::String, Json)]) -> Json {
    let mut d = rustc_serialize::json::Object::new();
    for item in items.iter() {
        match *item {
            (ref key, ref value) => {
                d.insert((*key).clone(), (*value).clone());
            }
        }
    }
    Object(d)
}

#[test]
fn test_from_str_trait() {
    let s = "null";
    assert!(s.parse::<Json>().unwrap() == s.parse().unwrap());
}

#[test]
fn test_trailing_characters() {
    assert_eq!(Json::from_str("nulla"), Err(SyntaxError(TrailingCharacters, 1, 5)));
    assert_eq!(Json::from_str("truea"), Err(SyntaxError(TrailingCharacters, 1, 5)));
    assert_eq!(Json::from_str("falsea"), Err(SyntaxError(TrailingCharacters, 1, 6)));
    assert_eq!(Json::from_str("1a"), Err(SyntaxError(TrailingCharacters, 1, 2)));
    assert_eq!(Json::from_str("[]a"), Err(SyntaxError(TrailingCharacters, 1, 3)));
    assert_eq!(Json::from_str("{}a"), Err(SyntaxError(TrailingCharacters, 1, 3)));
}

#[test]
fn test_read_identifiers() {
    assert_eq!(Json::from_str("n"), Err(SyntaxError(InvalidSyntax, 1, 2)));
    assert_eq!(Json::from_str("nul"), Err(SyntaxError(InvalidSyntax, 1, 4)));
    assert_eq!(Json::from_str("t"), Err(SyntaxError(InvalidSyntax, 1, 2)));
    assert_eq!(Json::from_str("truz"), Err(SyntaxError(InvalidSyntax, 1, 4)));
    assert_eq!(Json::from_str("f"), Err(SyntaxError(InvalidSyntax, 1, 2)));
    assert_eq!(Json::from_str("faz"), Err(SyntaxError(InvalidSyntax, 1, 3)));

    assert_eq!(Json::from_str("null"), Ok(Null));
    assert_eq!(Json::from_str("true"), Ok(Boolean(true)));
    assert_eq!(Json::from_str("false"), Ok(Boolean(false)));
    assert_eq!(Json::from_str(" null "), Ok(Null));
    assert_eq!(Json::from_str(" true "), Ok(Boolean(true)));
    assert_eq!(Json::from_str(" false "), Ok(Boolean(false)));
}

#[test]
fn test_read_number() {
    assert_eq!(Json::from_str("+"), Err(SyntaxError(InvalidSyntax, 1, 1)));
    assert_eq!(Json::from_str("."), Err(SyntaxError(InvalidSyntax, 1, 1)));
    assert_eq!(Json::from_str("NaN"), Err(SyntaxError(InvalidSyntax, 1, 1)));
    assert_eq!(Json::from_str("-"), Err(SyntaxError(InvalidNumber, 1, 2)));
    assert_eq!(Json::from_str("00"), Err(SyntaxError(InvalidNumber, 1, 2)));
    assert_eq!(Json::from_str("1."), Err(SyntaxError(InvalidNumber, 1, 3)));
    assert_eq!(Json::from_str("1e"), Err(SyntaxError(InvalidNumber, 1, 3)));
    assert_eq!(Json::from_str("1e+"), Err(SyntaxError(InvalidNumber, 1, 4)));

    assert_eq!(Json::from_str("18446744073709551616"), Err(SyntaxError(InvalidNumber, 1, 20)));
    assert_eq!(Json::from_str("18446744073709551617"), Err(SyntaxError(InvalidNumber, 1, 20)));
    assert_eq!(Json::from_str("-9223372036854775809"), Err(SyntaxError(InvalidNumber, 1, 21)));

    assert_eq!(Json::from_str("3"), Ok(U64(3)));
    assert_eq!(read_number("3.1"), 3.1);
    assert_eq!(read_number("-1.2"), -1.2);
    assert_eq!(read_number("0.4"), 0.4);
    assert_eq!(read_number("0.4e5"), 0.4e5);
    assert_eq!(read_number("0.4e+15"), 0.4e15);
    assert_eq!(read_number("0.4e-01"), 0.4e-01);
    assert_eq!(Json::from_str(" 3 "), Ok(U64(3)));

    assert_eq!(Json::from_str("-9223372036854775808"), Ok(I64(i64::MIN)));
    assert_eq!(Json::from_str("9223372036854775807"), Ok(U64(i64::MAX as u64)));
    assert_eq!(Json::from_str("18446744073709551615"), Ok(U64(u64::MAX)));
}

#[test]
fn test_read_number_parts() {
    assert_eq!(Json::from_str("3.1"), Ok(F64(decimal("3.1"))));
    assert_eq!(Json::from_str("-1.2"), Ok(F64(decimal("-1.2"))));
    assert_eq!(
        Json::from_str("0.4e+15"),
        Ok(F64(Float::Finite(Decimal::new(false, 0, vec![4], false, 15).unwrap())))
    );
    assert_eq!(
        Json::from_str("0.4e-01"),
        Ok(F64(Float::Finite(Decimal::new(false, 0, vec![4], true, 1).unwrap())))
    );
    assert_eq!(
        Json::from_str("2E3"),
        Ok(F64(Float::Finite(Decimal::new(false, 2, vec![0], false, 3).unwrap())))
    );
    assert_eq!(
        Json::from_str("-0.050"),
        Ok(F64(Float::Finite(Decimal::new(true, 0, vec![0, 5, 0], false, 0).unwrap())))
    );
    assert_eq!(
        Json::from_str("1e99999999999999999999"),
        Ok(F64(Float::Finite(Decimal::new(false, 1, vec![0], false, u64::MAX).unwrap())))
    );
    assert_eq!(Json::from_str("-0"), Ok(I64(0)));
    assert_eq!(Json::from_str("-12"), Ok(I64(-12)));
    assert_eq!(Json::from_str("18446744073709551616.5"), Err(SyntaxError(InvalidNumber, 1, 20)));
}

#[test]
fn test_read_str() {
    assert_eq!(Json::from_str("\""), Err(SyntaxError(EOFWhileParsingString, 1, 2)));
    assert_eq!(Json::from_str("\"lol"), Err(SyntaxError(EOFWhileParsingString, 1, 5)));
    assert_eq!(Json::from_str("\"\n\""), Err(SyntaxError(ControlCharacterInString, 2, 1)));

    assert_eq!(Json::from_str("\"\""), Ok(String("".to_string())));
    assert_eq!(Json::from_str("\"foo\""), Ok(String("foo".to_string())));
    assert_eq!(Json::from_str("\"\\\"\""), Ok(String("\"".to_string())));
    assert_eq!(Json::from_str("\"\\b\""), Ok(String("\x08".to_string())));
    assert_eq!(Json::from_str("\"\\n\""), Ok(String("\n".to_string())));
    assert_eq!(Json::from_str("\"\\r\""), Ok(String("\r".to_string())));
    assert_eq!(Json::from_str("\"\\t\""), Ok(String("\t".to_string())));
    assert_eq!(Json::from_str(" \"foo\" "), Ok(String("foo".to_string())));
    assert_eq!(Json::from_str("\"\\u12ab\""), Ok(String("\u{12ab}".to_string())));
    assert_eq!(Json::from_str("\"\\uAB12\""), Ok(String("\u{AB12}".to_string())));
}

#[test]
fn test_read_str_escapes() {
    assert_eq!(Json::from_str("\"\\ud834\\udf06\""), Ok(String("\u{1D306}".to_string())));
    assert_eq!(Json::from_str("\"\\uD800\\uDC00\""), Ok(String("\u{10000}".to_string())));
    assert_eq!(Json::from_str("\"\\uDBFF\\uDFFF\""), Ok(String("\u{10FFFF}".to_string())));
    assert_eq!(
        Json::from_str("\"\\ud834\""),
        Err(SyntaxError(UnexpectedEndOfHexEscape, 1, 9))
    );
    assert_eq!(Json::from_str("\"\\ud834"), Err(SyntaxError(UnexpectedEndOfHexEscape, 1, 9)));
    assert_eq!(
        Json::from_str("\"\\ud834\\u0041\""),
        Err(SyntaxError(LoneLeadingSurrogateInHexEscape, 1, 13))
    );
    assert_eq!(
        Json::from_str("\"\\udf06\""),
        Err(SyntaxError(LoneLeadingSurrogateInHexEscape, 1, 7))
    );
    assert_eq!(Json::from_str("\"\\x\""), Err(SyntaxError(InvalidEscape, 1, 3)));
    assert_eq!(Json::from_str("\"\\u12g4\""), Err(SyntaxError(InvalidEscape, 1, 6)));
    assert_eq!(Json::from_str("\"\\/\\f\\\\\""), Ok(String("/\x0c\\".to_string())));
    assert_eq!(Json::from_str("\"\x7f\""), Err(SyntaxError(ControlCharacterInString, 1, 2)));
    assert_eq!(Json::from_str("\"\u{80}\""), Ok(String("\u{80}".to_string())));
    assert_eq!(Json::from_str("\"a\\"), Err(SyntaxError(EOFWhileParsingString, 1, 4)));
}

#[test]
fn test_read_array() {
    assert_eq!(Json::from_str("["), Err(SyntaxError(EOFWhileParsingValue, 1, 2)));
    assert_eq!(Json::from_str("[1"), Err(SyntaxError(EOFWhileParsingArray, 1, 3)));
    assert_eq!(Json::from_str("[1,"), Err(SyntaxError(EOFWhileParsingValue, 1, 4)));
    assert_eq!(Json::from_str("[1,]"), Err(SyntaxError(InvalidSyntax, 1, 4)));
    assert_eq!(Json::from_str("[6 7]"), Err(SyntaxError(InvalidSyntax, 1, 4)));

    assert_eq!(Json::from_str("[]"), Ok(Array(vec![])));
    assert_eq!(Json::from_str("[ ]"), Ok(Array(vec![])));
    assert_eq!(Json::from_str("[true]"), Ok(Array(vec![Boolean(true)])));
    assert_eq!(Json::from_str("[ false ]"), Ok(Array(vec![Boolean(false)])));
    assert_eq!(Json::from_str("[null]"), Ok(Array(vec![Null])));
    assert_eq!(Json::from_str("[3, 1]"), Ok(Array(vec![U64(3), U64(1)])));
    assert_eq!(Json::from_str("\n[3, 2]\n"), Ok(Array(vec![U64(3), U64(2)])));
    assert_eq!(
        Json::from_str("[2, [4, 1]]"),
        Ok(Array(vec![U64(2), Array(vec![U64(4), U64(1)])]))
    );
}

#[test]
fn test_read_object() {
    assert_eq!(Json::from_str("{"), Err(SyntaxError(EOFWhileParsingObject, 1, 2)));
    assert_eq!(Json::from_str("{ "), Err(SyntaxError(EOFWhileParsingObject, 1, 3)));
    assert_eq!(Json::from_str("{1"), Err(SyntaxError(KeyMustBeAString, 1, 2)));
    assert_eq!(Json::from_str("{ \"a\""), Err(SyntaxError(EOFWhileParsingObject, 1, 6)));
    assert_eq!(Json::from_str("{\"a\""), Err(SyntaxError(EOFWhileParsingObject, 1, 5)));
    assert_eq!(Json::from_str("{\"a\" "), Err(SyntaxError(EOFWhileParsingObject, 1, 6)));

    assert_eq!(Json::from_str("{\"a\" 1"), Err(SyntaxError(ExpectedColon, 1, 6)));
    assert_eq!(Json::from_str("{\"a\":"), Err(SyntaxError(EOFWhileParsingValue, 1, 6)));
    assert_eq!(Json::from_str("{\"a\":1"), Err(SyntaxError(EOFWhileParsingObject, 1, 7)));
    assert_eq!(Json::from_str("{\"a\":1 1"), Err(SyntaxError(InvalidSyntax, 1, 8)));
    assert_eq!(Json::from_str("{\"a\":1,"), Err(SyntaxError(EOFWhileParsingObject, 1, 8)));

    assert_eq!(Json::from_str("{}").unwrap(), mk_object(&[]));
    assert_eq!(Json::from_str("{\"a\": 3}").unwrap(), mk_object(&[("a".to_string(), U64(3))]));

    assert_eq!(
        Json::from_str("{ \"a\": null, \"b\" : true }").unwrap(),
        mk_object(&[("a".to_string(), Null), ("b".to_string(), Boolean(true))])
    );
    assert_eq!(
        Json::from_str("\n{ \"a\": null, \"b\" : true }\n").unwrap(),
        mk_object(&[("a".to_string(), Null), ("b".to_string(), Boolean(true))])
    );
    assert_eq!(
        Json::from_str("{\"a\" : 1.0 ,\"b\": [ true ]}").unwrap(),
        mk_object(&[
            ("a".to_string(), F64(decimal("1.0"))),
            ("b".to_string(), Array(vec![Boolean(true)]))
        ])
    );
    assert_eq!(
        Json::from_str(
            "{\
                \"a\": 1.0, \
                \"b\": [\
                    true,\
                    \"foo\\nbar\", \
                    { \"c\": {\"d\": null} } \
                ]\
            }"
        )
        .unwrap(),
        mk_object(&[
            ("a".to_string(), F64(decimal("1.0"))),
            (
                "b".to_string(),
                Array(vec![
                    Boolean(true),
                    String("foo\nbar".to_string()),
                    mk_object(&[("c".to_string(), mk_object(&[("d".to_string(), Null)]))])
                ])
            )
        ])
    );
}

#[test]
fn test_read_object_trailing_comma() {
    assert_eq!(Json::from_str("{\"a\":1,}"), Err(SyntaxError(TrailingComma, 1, 8)));
    assert_eq!(Json::from_str("{\"x\":{\"a\":1,}}"), Err(SyntaxError(TrailingComma, 1, 13)));
    assert_eq!(Json::from_str("[{\"a\":1,}]"), Err(SyntaxError(TrailingComma, 1, 9)));
}

#[test]
fn test_read_object_repeated_key() {
    assert_eq!(
        Json::from_str("{\"a\":1,\"b\":2,\"a\":3}").unwrap(),
        mk_object(&[("a".to_string(), U64(3)), ("b".to_string(), U64(2))])
    );
}

#[test]
fn test_multiline_errors() {
    assert_eq!(
        Json::from_str("{\n  \"foo\":\n \"bar\""),
        Err(SyntaxError(EOFWhileParsingObject, 3, 8))
    );
}

#[test]
fn test_find() {
    let json_value = Json::from_str("{\"dog\" : \"cat\"}").unwrap();
    let found_str = json_value.find("dog");
    assert!(found_str.unwrap().as_string().unwrap() == "cat");
}

#[test]
fn test_find_path() {
    let json_value = Json::from_str("{\"dog\":{\"cat\": {\"mouse\" : \"cheese\"}}}").unwrap();
    let found_str = json_value.find_path(&["dog", "cat", "mouse"]);
    assert!(found_str.unwrap().as_string().unwrap() == "cheese");
}

#[test]
fn test_find_path_missing() {
    let json_value = Json::from_str("{\"dog\":{\"cat\": 1}}").unwrap();
    assert!(json_value.find_path(&["dog", "mouse"]).is_none());
    assert!(json_value.find_path(&["dog", "cat", "mouse"]).is_none());
    assert_eq!(json_value.find_path(&[]), Some(&json_value));
    assert!(json_value.find("cat").is_none());
    assert!(U64(1).find("cat").is_none());
}

#[test]
fn test_search() {
    let json_value = Json::from_str("{\"dog\":{\"cat\": {\"mouse\" : \"cheese\"}}}").unwrap();
    let found_str = json_value.search("mouse").and_then(|j| j.as_string());
    assert!(found_str.unwrap() == "cheese");
}

#[test]
fn test_search_order() {
    let json_value =
        Json::from_str("{\"b\":{\"k\":1},\"a\":{\"k\":2},\"c\":[{\"k\":3}]}").unwrap();
    assert_eq!(json_value.search("k"), Some(&U64(2)));
    assert_eq!(json_value.search("a").unwrap().search("k"), Some(&U64(2)));
    assert!(json_value.search("z").is_none());
    assert!(Array(vec![json_value.clone()]).search("k").is_none());
}

#[test]
fn test_index() {
    let json_value = Json::from_str("{\"animals\":[\"dog\",\"cat\",\"mouse\"]}").unwrap();
    let array = json_value.find("animals").unwrap().as_array().unwrap();
    assert_eq!(array[0].as_string().unwrap(), "dog");
    assert_eq!(array[1].as_string().unwrap(), "cat");
    assert_eq!(array[2].as_string().unwrap(), "mouse");
}

#[test]
fn test_is_object() {
    let json_value = Json::from_str("{}").unwrap();
    assert!(json_value.is_object());
}

#[test]
fn test_as_object() {
    let json_value = Json::from_str("{}").unwrap();
    let json_object = json_value.as_object();
    assert!(json_object.is_some());
}

#[test]
fn test_is_array() {
    let json_value = Json::from_str("[1, 2, 3]").unwrap();
    assert!(json_value.is_array());
}

#[test]
fn test_as_array() {
    let json_value = Json::from_str("[1, 2, 3]").unwrap();
    let json_array = json_value.as_array();
    let expected_length = 3;
    assert!(json_array.is_some() && json_array.unwrap().len() == expected_length);
}

#[test]
fn test_is_string() {
    let json_value = Json::from_str("\"dog\"").unwrap();
    assert!(json_value.is_string());
}

#[test]
fn test_as_string() {
    let json_value = Json::from_str("\"dog\"").unwrap();
    let json_str = json_value.as_string();
    let expected_str = "dog";
    assert_eq!(json_str, Some(expected_str));
}

#[test]
fn test_is_number() {
    let json_value = Json::from_str("12").unwrap();
    assert!(json_value.is_number());
}

#[test]
fn test_is_i64() {
    let json_value = Json::from_str("-12").unwrap();
    assert!(json_value.is_i64());

    let json_value = Json::from_str("12").unwrap();
    assert!(!json_value.is_i64());

    let json_value = Json::from_str("12.0").unwrap();
    assert!(!json_value.is_i64());
}

#[test]
fn test_is_u64() {
    let json_value = Json::from_str("12").unwrap();
    assert!(json_value.is_u64());

    let json_value = Json::from_str("-12").unwrap();
    assert!(!json_value.is_u64());

    let json_value = Json::from_str("12.0").unwrap();
    assert!(!json_value.is_u64());
}

#[test]
fn test_is_f64() {
    let json_value = Json::from_str("12").unwrap();
    assert!(!json_value.is_f64());

    let json_value = Json::from_str("-12").unwrap();
    assert!(!json_value.is_f64());

    let json_value = Json::from_str("12.0").unwrap();
    assert!(json_value.is_f64());

    let json_value = Json::from_str("-12.0").unwrap();
    assert!(json_value.is_f64());
}

#[test]
fn test_as_i64() {
    let json_value = Json::from_str("-12").unwrap();
    let json_num = json_value.as_i64();
    assert_eq!(json_num, Some(-12));
}

#[test]
fn test_as_i64_of_unsigned() {
    assert_eq!(U64(12).as_i64(), Some(12));
    assert_eq!(U64(i64::MAX as u64 - 1).as_i64(), Some(i64::MAX - 1));
    assert_eq!(U64(i64::MAX as u64).as_i64(), None);
    assert_eq!(U64(u64::MAX).as_i64(), None);
    assert_eq!(Null.as_i64(), None);
}

#[test]
fn test_as_u64() {
    let json_value = Json::from_str("12").unwrap();
    let json_num = json_value.as_u64();
    assert_eq!(json_num, Some(12));
}

#[test]
fn test_as_u64_of_signed() {
    assert_eq!(I64(12).as_u64(), Some(12));
    assert_eq!(I64(-1).as_u64(), None);
    assert_eq!(Boolean(true).as_u64(), None);
}

#[test]
fn test_as_f64() {
    let json_value = Json::from_str("12.0").unwrap();
    let json_num = json_value.as_f64();
    assert_eq!(json_num.map(|f| as_number(&f)), Some(12f64));
}

#[test]
fn test_as_f64_of_integers() {
    assert_eq!(I64(-3).as_f64(), Some(decimal("-3.0")));
    assert_eq!(U64(7).as_f64(), Some(decimal("7.0")));
    assert_eq!(I64(i64::MIN).as_f64().map(|f| as_number(&f)), Some(i64::MIN as f64));
    assert_eq!(Null.as_f64(), None);
}

#[test]
fn test_is_boolean() {
    let json_value = Json::from_str("false").unwrap();
    assert!(json_value.is_boolean());
}

#[test]
fn test_as_boolean() {
    let json_value = Json::from_str("false").unwrap();
    let json_bool = json_value.as_boolean();
    let expected_bool = false;
    assert!(json_bool.is_some() && json_bool.unwrap() == expected_bool);
}

#[test]
fn test_is_null() {
    let json_value = Json::from_str("null").unwrap();
    assert!(json_value.is_null());
}

#[test]
fn test_as_null() {
    let json_value = Json::from_str("null").unwrap();
    let json_null = json_value.as_null();
    let expected_null = ();
    assert!(json_null.is_some() && json_null.unwrap() == expected_null);
}

fn assert_stream_equal(src: &str, expected: Vec<(JsonEvent, Vec<StackElement>)>) {
    let mut parser = Parser::new(src.chars().collect());
    let mut i = 0;
    loop {
        let evt = match parser.next() {
            Some(e) => e,
            None => {
                break;
            }
        };
        let (ref expected_evt, ref expected_stack) = expected[i];
        if !parser.stack().is_equal_to(&expected_stack) {
            panic!("Parser stack is not equal to {:?}", expected_stack);
        }
        assert_eq!(&evt, expected_evt);
        i += 1;
    }
    assert_eq!(i, expected.len());
}

#[test]
fn test_streaming_parser() {
    assert_stream_equal(
        r#"{ "foo":"bar", "array" : [0, 1, 2, 3, 4, 5], "idents":[null,true,false]}"#,
        vec![
            (ObjectStart, vec![]),
            (StringValue("bar".to_string()), vec![Key("foo")]),
            (ArrayStart, vec![Key("array")]),
            (U64Value(0), vec![Key("array"), Index(0)]),
            (U64Value(1), vec![Key("array"), Index(1)]),
            (U64Value(2), vec![Key("array"), Index(2)]),
            (U64Value(3), vec![Key("array"), Index(3)]),
            (U64Value(4), vec![Key("array"), Index(4)]),
            (U64Value(5), vec![Key("array"), Index(5)]),
            (ArrayEnd, vec![Key("array")]),
            (ArrayStart, vec![Key("idents")]),
            (NullValue, vec![Key("idents"), Index(0)]),
            (BooleanValue(true), vec![Key("idents"), Index(1)]),
            (BooleanValue(false), vec![Key("idents"), Index(2)]),
            (ArrayEnd, vec![Key("idents")]),
            (ObjectEnd, vec![]),
        ],
    );
}

#[test]
fn test_streaming_path_of_second_element() {
    let mut parser = Parser::new("{\"a\":[1,2]}".chars().collect());
    assert_eq!(parser.next(), Some(ObjectStart));
    assert_eq!(parser.next(), Some(ArrayStart));
    assert_eq!(parser.next(), Some(U64Value(1)));
    assert!(parser.stack().is_equal_to(&[Key("a"), Index(0)]));
    assert_eq!(parser.next(), Some(U64Value(2)));
    assert!(parser.stack().is_equal_to(&[Key("a"), Index(1)]));
    assert_eq!(parser.stack().len(), 2);
    assert_eq!(parser.stack().top(), Some(Index(1)));
    assert_eq!(parser.next(), Some(ArrayEnd));
    assert_eq!(parser.next(), Some(ObjectEnd));
    assert_eq!(parser.state(), ParserState::ParseBeforeFinish);
    assert_eq!(parser.next(), None);
    assert_eq!(parser.state(), ParserState::ParseFinished);
    assert_eq!(parser.next(), None);
}

#[test]
fn test_streaming_error_is_final() {
    let mut parser = Parser::new("[1 2, 3]".chars().collect());
    assert_eq!(parser.next(), Some(ArrayStart));
    assert_eq!(parser.next(), Some(U64Value(1)));
    assert_eq!(parser.next(), Some(Error(SyntaxError(InvalidSyntax, 1, 4))));
    assert_eq!(parser.state(), ParserState::ParseFinished);
    assert_eq!(parser.next(), None);
    assert_eq!(parser.next(), None);
    assert_eq!(parser.error::<()>(TrailingComma), Err(SyntaxError(TrailingComma, 1, 4)));
}

fn last_event(src: &str) -> JsonEvent {
    let mut parser = Parser::new(src.chars().collect());
    let mut evt = NullValue;
    loop {
        evt = match parser.next() {
            Some(e) => e,
            None => return evt,
        }
    }
}

#[test]
fn test_read_object_streaming() {
    assert_eq!(last_event("{ "), Error(SyntaxError(EOFWhileParsingObject, 1, 3)));
    assert_eq!(last_event("{1"), Error(SyntaxError(KeyMustBeAString, 1, 2)));
    assert_eq!(last_event("{ \"a\""), Error(SyntaxError(EOFWhileParsingObject, 1, 6)));
    assert_eq!(last_event("{\"a\""), Error(SyntaxError(EOFWhileParsingObject, 1, 5)));
    assert_eq!(last_event("{\"a\" "), Error(SyntaxError(EOFWhileParsingObject, 1, 6)));

    assert_eq!(last_event("{\"a\" 1"), Error(SyntaxError(ExpectedColon, 1, 6)));
    assert_eq!(last_event("{\"a\":"), Error(SyntaxError(EOFWhileParsingValue, 1, 6)));
    assert_eq!(last_event("{\"a\":1"), Error(SyntaxError(EOFWhileParsingObject, 1, 7)));
    assert_eq!(last_event("{\"a\":1 1"), Error(SyntaxError(InvalidSyntax, 1, 8)));
    assert_eq!(last_event("{\"a\":1,"), Error(SyntaxError(EOFWhileParsingObject, 1, 8)));
    assert_eq!(last_event("{\"a\":1,}"), Error(SyntaxError(TrailingComma, 1, 8)));

    assert_stream_equal("{}", vec![(ObjectStart, vec![]), (ObjectEnd, vec![])]);
    assert_stream_equal(
        "{\"a\": 3}",
        vec![(ObjectStart, vec![]), (U64Value(3), vec![Key("a")]), (ObjectEnd, vec![])],
    );
    assert_stream_equal(
        "{ \"a\": null, \"b\" : true }",
        vec![
            (ObjectStart, vec![]),
            (NullValue, vec![Key("a")]),
            (BooleanValue(true), vec![Key("b")]),
            (ObjectEnd, vec![]),
        ],
    );
    assert_stream_equal(
        "{\"a\" : 1.0 ,\"b\": [ true ]}",
        vec![
            (ObjectStart, vec![]),
            (F64Value(decimal("1.0")), vec![Key("a")]),
            (ArrayStart, vec![Key("b")]),
            (BooleanValue(true), vec![Key("b"), Index(0)]),
            (ArrayEnd, vec![Key("b")]),
            (ObjectEnd, vec![]),
        ],
    );
    assert_stream_equal(
        r#"{
                "a": 1.0,
                "b": [
                    true,
                    "foo\nbar",
                    { "c": {"d": null} },
                    "\uD834\uDF06"
                ]
            }"#,
        vec![
            (ObjectStart, vec![]),
            (F64Value(decimal("1.0")), vec![Key("a")]),
            (ArrayStart, vec![Key("b")]),
            (BooleanValue(true), vec![Key("b"), Index(0)]),
            (StringValue("foo\nbar".to_string()), vec![Key("b"), Index(1)]),
            (ObjectStart, vec![Key("b"), Index(2)]),
            (ObjectStart, vec![Key("b"), Index(2), Key("c")]),
            (NullValue, vec![Key("b"), Index(2), Key("c"), Key("d")]),
            (ObjectEnd, vec![Key("b"), Index(2), Key("c")]),
            (ObjectEnd, vec![Key("b"), Index(2)]),
            (StringValue("\u{1D306}".to_string()), vec![Key("b"), Index(3)]),
            (ArrayEnd, vec![Key("b")]),
            (ObjectEnd, vec![]),
        ],
    );
}

#[test]
fn test_read_array_streaming() {
    assert_stream_equal("[]", vec![(ArrayStart, vec![]), (ArrayEnd, vec![])]);
    assert_stream_equal("[ ]", vec![(ArrayStart, vec![]), (ArrayEnd, vec![])]);
    assert_stream_equal(
        "[true]",
        vec![(ArrayStart, vec![]), (BooleanValue(true), vec![Index(0)]), (ArrayEnd, vec![])],
    );
    assert_stream_equal(
        "[ false ]",
        vec![(ArrayStart, vec![]), (BooleanValue(false), vec![Index(0)]), (ArrayEnd, vec![])],
    );
    assert_stream_equal(
        "[null]",
        vec![(ArrayStart, vec![]), (NullValue, vec![Index(0)]), (ArrayEnd, vec![])],
    );
    assert_stream_equal(
        "[3, 1]",
        vec![
            (ArrayStart, vec![]),
            (U64Value(3), vec![Index(0)]),
            (U64Value(1), vec![Index(1)]),
            (ArrayEnd, vec![]),
        ],
    );
    assert_stream_equal(
        "\n[3, 2]\n",
        vec![
            (ArrayStart, vec![]),
            (U64Value(3), vec![Index(0)]),
            (U64Value(2), vec![Index(1)]),
            (ArrayEnd, vec![]),
        ],
    );
    assert_stream_equal(
        "[2, [4, 1]]",
        vec![
            (ArrayStart, vec![]),
            (U64Value(2), vec![Index(0)]),
            (ArrayStart, vec![Index(1)]),
            (U64Value(4), vec![Index(1), Index(0)]),
            (U64Value(1), vec![Index(1), Index(1)]),
            (ArrayEnd, vec![Index(1)]),
            (ArrayEnd, vec![]),
        ],
    );

    assert_eq!(last_event("["), Error(SyntaxError(EOFWhileParsingValue, 1, 2)));

    assert_eq!(Json::from_str("["), Err(SyntaxError(EOFWhileParsingValue, 1, 2)));
    assert_eq!(Json::from_str("[1"), Err(SyntaxError(EOFWhileParsingArray, 1, 3)));
    assert_eq!(Json::from_str("[1,"), Err(SyntaxError(EOFWhileParsingValue, 1, 4)));
    assert_eq!(Json::from_str("[1,]"), Err(SyntaxError(InvalidSyntax, 1, 4)));
    assert_eq!(Json::from_str("[6 7]"), Err(SyntaxError(InvalidSyntax, 1, 4)));
}

#[test]
fn test_trailing_characters_streaming() {
    assert_eq!(last_event("nulla"), Error(SyntaxError(TrailingCharacters, 1, 5)));
    assert_eq!(last_event("truea"), Error(SyntaxError(TrailingCharacters, 1, 5)));
    assert_eq!(last_event("falsea"), Error(SyntaxError(TrailingCharacters, 1, 6)));
    assert_eq!(last_event("1a"), Error(SyntaxError(TrailingCharacters, 1, 2)));
    assert_eq!(last_event("[]a"), Error(SyntaxError(TrailingCharacters, 1, 3)));
    assert_eq!(last_event("{}a"), Error(SyntaxError(TrailingCharacters, 1, 3)));
}

#[test]
fn test_read_identifiers_streaming() {
    assert_eq!(Parser::new("null".chars().collect()).next(), Some(NullValue));
    assert_eq!(Parser::new("true".chars().collect()).next(), Some(BooleanValue(true)));
    assert_eq!(Parser::new("false".chars().collect()).next(), Some(BooleanValue(false)));

    assert_eq!(last_event("n"), Error(SyntaxError(InvalidSyntax, 1, 2)));
    assert_eq!(last_event("nul"), Error(SyntaxError(InvalidSyntax, 1, 4)));
    assert_eq!(last_event("t"), Error(SyntaxError(InvalidSyntax, 1, 2)));
    assert_eq!(last_event("truz"), Error(SyntaxError(InvalidSyntax, 1, 4)));
    assert_eq!(last_event("f"), Error(SyntaxError(InvalidSyntax, 1, 2)));
    assert_eq!(last_event("faz"), Error(SyntaxError(InvalidSyntax, 1, 3)));
}

#[test]
fn test_stack() {
    let mut stack = Stack::new();

    assert!(stack.is_empty());
    assert!(stack.len() == 0);
    assert!(!stack.last_is_index());

    stack.push_index(0);
    stack.bump_index();

    assert!(stack.len() == 1);
    assert!(stack.is_equal_to(&[Index(1)]));
    assert!(stack.starts_with(&[Index(1)]));
    assert!(stack.ends_with(&[Index(1)]));
    assert!(stack.last_is_index());
    assert!(stack.get(0) == Index(1));

    stack.push_key("foo".to_string());

    assert!(stack.len() == 2);
    assert!(stack.is_equal_to(&[Index(1), Key("foo")]));
    assert!(stack.starts_with(&[Index(1), Key("foo")]));
    assert!(stack.starts_with(&[Index(1)]));
    assert!(stack.ends_with(&[Index(1), Key("foo")]));
    assert!(stack.ends_with(&[Key("foo")]));
    assert!(!stack.last_is_index());
    assert!(stack.get(0) == Index(1));
    assert!(stack.get(1) == Key("foo"));

    stack.push_key("bar".to_string());

    assert!(stack.len() == 3);
    assert!(stack.is_equal_to(&[Index(1), Key("foo"), Key("bar")]));
    assert!(stack.starts_with(&[Index(1)]));
    assert!(stack.starts_with(&[Index(1), Key("foo")]));
    assert!(stack.starts_with(&[Index(1), Key("foo"), Key("bar")]));
    assert!(stack.ends_with(&[Key("bar")]));
    assert!(stack.ends_with(&[Key("foo"), Key("bar")]));
    assert!(stack.ends_with(&[Index(1), Key("foo"), Key("bar")]));
    assert!(!stack.last_is_index());
    assert!(stack.get(0) == Index(1));
    assert!(stack.get(1) == Key("foo"));
    assert!(stack.get(2) == Key("bar"));

    stack.pop();

    assert!(stack.len() == 2);
    assert!(stack.is_equal_to(&[Index(1), Key("foo")]));
    assert!(stack.starts_with(&[Index(1), Key("foo")]));
    assert!(stack.starts_with(&[Index(1)]));
    assert!(stack.ends_with(&[Index(1), Key("foo")]));
    assert!(stack.ends_with(&[Key("foo")]));
    assert!(!stack.last_is_index());
    assert!(stack.get(0) == Index(1));
    assert!(stack.get(1) == Key("foo"));
}

#[test]
fn test_stack_mismatch() {
    let mut stack = Stack::new();
    assert_eq!(stack.top(), None);
    stack.push_index(u32::MAX);
    stack.bump_index();
    assert_eq!(stack.top(), Some(Index(0)));
    stack.push_key("k".to_string());
    assert_eq!(stack.top(), Some(Key("k")));
    assert!(!stack.is_equal_to(&[Index(0)]));
    assert!(!stack.is_equal_to(&[Index(0), Key("j")]));
    assert!(!stack.is_equal_to(&[Index(0), Index(0)]));
    assert!(!stack.starts_with(&[Key("k")]));
    assert!(!stack.starts_with(&[Index(0), Key("k"), Key("k")]));
    assert!(!stack.ends_with(&[Index(0)]));
    assert!(!stack.ends_with(&[Index(0), Index(0), Key("k")]));
    assert!(stack.starts_with(&[]));
    assert!(stack.ends_with(&[]));
    assert!(Index(3).same(&Index(3)));
    assert!(!Index(3).same(&Key("3")));
    assert!(Key("3").same(&Key("3")));
}

#[test]
fn test_errors_used_by_decoders() {
    // The three kinds of decoding error that carry a name.
    assert!(ExpectedError("a".to_string(), "b".to_string()) != MissingFieldError("a".to_string()));
    assert!(MissingFieldError("a".to_string()) != UnknownVariantError("a".to_string()));
}

#[test]
fn test_error_str() {
    let texts = [
        (InvalidSyntax, "invalid syntax"),
        (InvalidNumber, "invalid number"),
        (EOFWhileParsingObject, "EOF While parsing object"),
        (EOFWhileParsingArray, "EOF While parsing array"),
        (EOFWhileParsingValue, "EOF While parsing value"),
        (EOFWhileParsingString, "EOF While parsing string"),
        (KeyMustBeAString, "key must be a string"),
        (ExpectedColon, "expected `:`"),
        (TrailingCharacters, "trailing characters"),
        (TrailingComma, "trailing comma"),
        (InvalidEscape, "invalid escape"),
        (ErrorCode::UnrecognizedHex, "invalid \\u{ esc}ape (unrecognized hex)"),
        (ErrorCode::NotFourDigit, "invalid \\u{ esc}ape (not four digits)"),
        (ControlCharacterInString, "unescaped control character in string"),
        (ErrorCode::NotUtf8, "contents not utf-8"),
        (ErrorCode::InvalidUnicodeCodePoint, "invalid Unicode code point"),
        (LoneLeadingSurrogateInHexEscape, "lone leading surrogate in hex escape"),
        (UnexpectedEndOfHexEscape, "unexpected end of hex escape"),
    ];
    for (code, text) in texts.iter() {
        assert_eq!(error_str(*code), *text);
    }
}

#[test]
fn test_parser_error_equality() {
    assert!(SyntaxError(InvalidSyntax, 1, 2) == SyntaxError(InvalidSyntax, 1, 2));
    assert!(SyntaxError(InvalidSyntax, 1, 2) != SyntaxError(InvalidNumber, 1, 2));
    assert!(SyntaxError(InvalidSyntax, 1, 2) != SyntaxError(InvalidSyntax, 2, 2));
    assert!(SyntaxError(InvalidSyntax, 1, 2) != SyntaxError(InvalidSyntax, 1, 3));
    // A failure to read the source is equal to nothing.
    assert!(ParserError::IoError != ParserError::IoError);
    assert!(ParserError::IoError != SyntaxError(InvalidSyntax, 1, 2));
}
