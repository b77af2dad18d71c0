// Writing values as text, compact and indented.

use std::collections::HashMap;

use rustc_serialize::json::Json::{Array, Boolean, Null, Object, String, F64, I64, U64};
use rustc_serialize::json::{
    as_json, as_pretty_json, encode, escape_char, escape_str, fmt_number_or_null, spaces,
    Decimal, EncodeResult, Encoder, EncoderError, Float, Json, PrettyJson,
};
use rustc_serialize::Encodable;

// The floating-point number `x` as the decimal that denotes it.
fn float(x: f64) -> Float {
    if x.is_nan() {
        return Float::Nan;
    }
    if x.is_infinite() {
        return if x > 0.0 { Float::Infinity } else { Float::NegInfinity };
    }
    let text = format!("{}", x.abs());
    let mut parts = text.split('.');
    let integer: u64 = parts.next().unwrap().parse().unwrap();
    let fraction: Vec<u8> = parts.next().unwrap_or("0").bytes().map(|b| b - b'0').collect();
    Float::Finite(Decimal::new(x.is_sign_negative(), integer, fraction, false, 0).unwrap())
}

fn mk_object_of(items: &[(std::string::String, Json)]) -> Json {
    let mut d = rustc_serialize::json::Object::new();
    for item in items.iter() {
        match *item {
            (ref key, ref value) => {
                d.insert((*key).clone(), (*value).clone());
            }
        }
    }
    Object(d)
}

#[derive(PartialEq, Debug)]
enum Animal {
    Dog,
    Frog(std::string::String, isize),
}

impl Encodable for Animal {
    fn encode(&self, s: &mut Encoder) -> EncodeResult<()> {
        s.emit_enum("Animal", |s| match *self {
            Animal::Dog => s.emit_enum_variant("Dog", 0, 0, |_| Ok(())),
            Animal::Frog(ref name, ref age) => s.emit_enum_variant("Frog", 1, 2, |s| {
                s.emit_enum_variant_arg(0, |s| name.encode(s))?;
                s.emit_enum_variant_arg(1, |s| age.encode(s))?;
                Ok(())
            }),
        })
    }
}

#[test]
fn test_write_null() {
    assert_eq!(Null.to_string(), "null");
    assert_eq!(Null.pretty().to_string(), "null");
}

#[test]
fn test_write_i64() {
    assert_eq!(U64(0).to_string(), "0");
    assert_eq!(U64(0).pretty().to_string(), "0");

    assert_eq!(U64(1234).to_string(), "1234");
    assert_eq!(U64(1234).pretty().to_string(), "1234");

    assert_eq!(I64(-5678).to_string(), "-5678");
    assert_eq!(I64(-5678).pretty().to_string(), "-5678");

    assert_eq!(U64(7650007200025252000).to_string(), "7650007200025252000");
    assert_eq!(U64(7650007200025252000).pretty().to_string(), "7650007200025252000");
}

#[test]
fn test_write_i64_limits() {
    assert_eq!(I64(i64::MIN).to_string(), "-9223372036854775808");
    assert_eq!(I64(i64::MAX).to_string(), "9223372036854775807");
    assert_eq!(U64(u64::MAX).to_string(), "18446744073709551615");
    assert_eq!(I64(0).to_string(), "0");
    assert_eq!(U64(10).to_string(), "10");
}

#[test]
fn test_write_f64() {
    assert_eq!(F64(float(3.0)).to_string(), "3.0");
    assert_eq!(F64(float(3.0)).pretty().to_string(), "3.0");

    assert_eq!(F64(float(3.1)).to_string(), "3.1");
    assert_eq!(F64(float(3.1)).pretty().to_string(), "3.1");

    assert_eq!(F64(float(-1.5)).to_string(), "-1.5");
    assert_eq!(F64(float(-1.5)).pretty().to_string(), "-1.5");

    assert_eq!(F64(float(0.5)).to_string(), "0.5");
    assert_eq!(F64(float(0.5)).pretty().to_string(), "0.5");

    assert_eq!(F64(float(f64::NAN)).to_string(), "null");
    assert_eq!(F64(float(f64::NAN)).pretty().to_string(), "null");

    assert_eq!(F64(float(f64::INFINITY)).to_string(), "null");
    assert_eq!(F64(float(f64::INFINITY)).pretty().to_string(), "null");

    assert_eq!(F64(float(f64::NEG_INFINITY)).to_string(), "null");
    assert_eq!(F64(float(f64::NEG_INFINITY)).pretty().to_string(), "null");
}

#[test]
fn test_write_f64_with_exponent() {
    let d = Decimal::new(true, 12, vec![0, 5], true, 7).unwrap();
    assert_eq!(fmt_number_or_null(&Float::Finite(d.clone())), "-12.05e-7");
    assert_eq!(F64(Float::Finite(d)).to_string(), "-12.05e-7");
    let e = Decimal::new(false, 1, vec![0], false, 300).unwrap();
    assert_eq!(fmt_number_or_null(&Float::Finite(e)), "1.0e300");
    let z = Decimal::new(false, 1, vec![0], true, 0).unwrap();
    assert_eq!(fmt_number_or_null(&Float::Finite(z)), "1.0e-0");
    assert_eq!(fmt_number_or_null(&Float::Nan), "null");
    assert_eq!(fmt_number_or_null(&Float::from_u64(7)), "7.0");
    assert_eq!(fmt_number_or_null(&Float::from_i64(-7)), "-7.0");
    assert!(Decimal::new(false, 1, vec![], false, 0).is_none());
    assert!(Decimal::new(false, 1, vec![3, 10], false, 0).is_none());
}

#[test]
fn test_write_str() {
    assert_eq!(String("".to_string()).to_string(), "\"\"");
    assert_eq!(String("".to_string()).pretty().to_string(), "\"\"");

    assert_eq!(String("homura".to_string()).to_string(), "\"homura\"");
    assert_eq!(String("madoka".to_string()).pretty().to_string(), "\"madoka\"");
}

#[test]
fn test_write_str_escapes() {
    let mut out: Vec<char> = Vec::new();
    escape_str(&mut out, "a\"b\\c\x08\t\n\x0c\r\x00\x1f\x7f\u{80}é/");
    let text: std::string::String = out.iter().collect();
    assert_eq!(text, "\"a\\\"b\\\\c\\b\\t\\n\\f\\r\\u0000\\u001f\\u007f\u{80}é/\"");

    let mut out: Vec<char> = Vec::new();
    escape_char(&mut out, '\x0b');
    let text: std::string::String = out.iter().collect();
    assert_eq!(text, "\"\\u000b\"");

    let mut out: Vec<char> = vec!['x'];
    spaces(&mut out, 17);
    assert_eq!(out.len(), 18);
    assert!(out[1..].iter().all(|c| *c == ' '));
    spaces(&mut out, 0);
    assert_eq!(out.len(), 18);
}

#[test]
fn test_write_bool() {
    assert_eq!(Boolean(true).to_string(), "true");
    assert_eq!(Boolean(true).pretty().to_string(), "true");

    assert_eq!(Boolean(false).to_string(), "false");
    assert_eq!(Boolean(false).pretty().to_string(), "false");
}

#[test]
fn test_write_array() {
    assert_eq!(Array(vec![]).to_string(), "[]");
    assert_eq!(Array(vec![]).pretty().to_string(), "[]");

    assert_eq!(Array(vec![Boolean(true)]).to_string(), "[true]");
    assert_eq!(
        Array(vec![Boolean(true)]).pretty().to_string(),
        "\
            [\n  \
                true\n\
            ]"
    );

    let long_test_array = Array(vec![
        Boolean(false),
        Null,
        Array(vec![String("foo\nbar".to_string()), F64(float(3.5))]),
    ]);

    assert_eq!(long_test_array.to_string(), "[false,null,[\"foo\\nbar\",3.5]]");
    assert_eq!(
        long_test_array.pretty().to_string(),
        "\
            [\n  \
                false,\n  \
                null,\n  \
                [\n    \
                    \"foo\\nbar\",\n    \
                    3.5\n  \
                ]\n\
            ]"
    );
}

#[test]
fn test_write_object() {
    assert_eq!(mk_object_of(&[]).to_string(), "{}");
    assert_eq!(mk_object_of(&[]).pretty().to_string(), "{}");

    assert_eq!(mk_object_of(&[("a".to_string(), Boolean(true))]).to_string(), "{\"a\":true}");
    assert_eq!(
        mk_object_of(&[("a".to_string(), Boolean(true))]).pretty().to_string(),
        "\
            {\n  \
                \"a\": true\n\
            }"
    );

    let complex_obj = mk_object_of(&[(
        "b".to_string(),
        Array(vec![
            mk_object_of(&[("c".to_string(), String("\x0c\r".to_string()))]),
            mk_object_of(&[("d".to_string(), String("".to_string()))]),
        ]),
    )]);

    assert_eq!(
        complex_obj.to_string(),
        "{\
                \"b\":[\
                    {\"c\":\"\\f\\r\"},\
                    {\"d\":\"\"}\
                ]\
            }"
    );
    assert_eq!(
        complex_obj.pretty().to_string(),
        "\
            {\n  \
                \"b\": [\n    \
                    {\n      \
                        \"c\": \"\\f\\r\"\n    \
                    },\n    \
                    {\n      \
                        \"d\": \"\"\n    \
                    }\n  \
                ]\n\
            }"
    );

    let a = mk_object_of(&[
        ("a".to_string(), Boolean(true)),
        (
            "b".to_string(),
            Array(vec![
                mk_object_of(&[("c".to_string(), String("\x0c\r".to_string()))]),
                mk_object_of(&[("d".to_string(), String("".to_string()))]),
            ]),
        ),
    ]);

    // We can't compare the strings directly because the object fields be
    // printed in a different order.
    assert_eq!(a.clone(), a.to_string().parse().unwrap());
    assert_eq!(a.clone(), a.pretty().to_string().parse().unwrap());
}

#[test]
fn test_write_enum() {
    let animal = Animal::Dog;
    assert_eq!(as_json(&animal).to_string().unwrap(), "\"Dog\"");
    assert_eq!(as_pretty_json(&animal).to_string().unwrap(), "\"Dog\"");

    let animal = Animal::Frog("Henry".to_string(), 349);
    assert_eq!(
        as_json(&animal).to_string().unwrap(),
        "{\"variant\":\"Frog\",\"fields\":[\"Henry\",349]}"
    );
    assert_eq!(
        as_pretty_json(&animal).to_string().unwrap(),
        "{\n  \
               \"variant\": \"Frog\",\n  \
               \"fields\": [\n    \
                 \"Henry\",\n    \
                 349\n  \
               ]\n\
             }"
    );
}

fn check_encoder_for_simple<T: Encodable>(value: T, expected: &str) {
    let s = as_json(&value).to_string().unwrap();
    assert_eq!(s, expected);

    let s = as_pretty_json(&value).to_string().unwrap();
    assert_eq!(s, expected);
}

#[test]
fn test_write_some() {
    check_encoder_for_simple(Some("jodhpurs".to_string()), "\"jodhpurs\"");
}

#[test]
fn test_write_none() {
    check_encoder_for_simple(None::<std::string::String>, "null");
}

#[test]
fn test_write_char() {
    check_encoder_for_simple('a', "\"a\"");
    check_encoder_for_simple('\t', "\"\\t\"");
    check_encoder_for_simple('\u{0000}', "\"\\u0000\"");
    check_encoder_for_simple('\u{001b}', "\"\\u001b\"");
    check_encoder_for_simple('\u{007f}', "\"\\u007f\"");
    check_encoder_for_simple('\u{00a0}', "\"\u{00a0}\"");
    check_encoder_for_simple('\u{abcd}', "\"\u{abcd}\"");
    check_encoder_for_simple('\u{10ffff}', "\"\u{10ffff}\"");
}

#[test]
fn test_write_scalars_through_the_trait() {
    check_encoder_for_simple((), "null");
    check_encoder_for_simple(true, "true");
    check_encoder_for_simple(200u8, "200");
    check_encoder_for_simple(-128i8, "-128");
    check_encoder_for_simple(u16::MAX, "65535");
    check_encoder_for_simple(i16::MIN, "-32768");
    check_encoder_for_simple(u32::MAX, "4294967295");
    check_encoder_for_simple(i32::MIN, "-2147483648");
    check_encoder_for_simple(u64::MAX, "18446744073709551615");
    check_encoder_for_simple(i64::MIN, "-9223372036854775808");
    check_encoder_for_simple(17usize, "17");
    check_encoder_for_simple(-17isize, "-17");
    check_encoder_for_simple(float(2.5), "2.5");
    check_encoder_for_simple(Float::Nan, "null");
    check_encoder_for_simple(Vec::<u8>::new(), "[]");
    assert_eq!(encode(&vec![1u8, 2, 3]), Ok("[1,2,3]".to_string()));
    assert_eq!(
        as_pretty_json(&vec![Some(1u8), None]).to_string(),
        Ok("[\n  1,\n  null\n]".to_string())
    );
    assert_eq!(encode(&Array(vec![U64(1), Null])), Ok("[1,null]".to_string()));
}

// A map whose keys are written by their own encoding.
struct KeyedMap<K, V>(HashMap<K, V>);

impl<K: Encodable, V: Encodable> Encodable for KeyedMap<K, V> {
    fn encode(&self, e: &mut Encoder) -> EncodeResult<()> {
        e.emit_map(self.0.len(), |e| {
            let mut i = 0;
            for (key, val) in self.0.iter() {
                e.emit_map_elt_key(i, |e| key.encode(e))?;
                e.emit_map_elt_val(i, |e| val.encode(e))?;
                i += 1;
            }
            Ok(())
        })
    }
}

#[test]
fn test_encode_hashmap_with_numeric_key() {
    let mut hm: HashMap<usize, bool> = HashMap::new();
    hm.insert(1, true);
    let json_str = as_pretty_json(&KeyedMap(hm)).to_string().unwrap();
    match Json::from_str(&json_str) {
        Err(_) => panic!("Unable to parse json_str: {}", json_str),
        _ => {} // it parsed and we are good to go
    }
}

#[test]
fn test_prettyencode_hashmap_with_numeric_key() {
    let mut hm: HashMap<usize, bool> = HashMap::new();
    hm.insert(1, true);
    let json_str = as_pretty_json(&KeyedMap(hm)).to_string().unwrap();
    assert_eq!(json_str, "{\n  \"1\": true\n}");
    match Json::from_str(&json_str) {
        Err(_) => panic!("Unable to parse json_str: {}", json_str),
        _ => {} // it parsed and we are good to go
    }
}

#[test]
fn test_prettyencoder_indent_level_param() {
    let mut tree = rustc_serialize::json::Object::new();

    tree.insert("hello".to_string(), String("guten tag".to_string()));
    tree.insert("goodbye".to_string(), String("sayonara".to_string()));

    let json = Array(
        // The following layout below should look a lot like
        // the pretty-printed JSON (indent * x)
        vec![
            // 0x
            String("greetings".to_string()), // 1x
            Object(tree),                    // 1x + 2x + 2x + 1x
        ], // 0x
           // End JSON array (7 lines)
    );

    // Helper function for counting indents
    fn indents(source: &str) -> usize {
        let trimmed = source.trim_start_matches(' ');
        source.len() - trimmed.len()
    }

    // Test up to 4 spaces of indents (more?)
    for i in 0..4 {
        let printed = as_pretty_json(&json).indent(i as u32).to_string().unwrap();

        // Check for indents at each line
        let lines: Vec<&str> = printed.lines().collect();
        assert_eq!(lines.len(), 7); // JSON should be 7 lines

        assert_eq!(indents(lines[0]), 0 * i); // [
        assert_eq!(indents(lines[1]), 1 * i); //   "greetings",
        assert_eq!(indents(lines[2]), 1 * i); //   {
        assert_eq!(indents(lines[3]), 2 * i); //     "hello": "guten tag",
        assert_eq!(indents(lines[4]), 2 * i); //     "goodbye": "sayonara"
        assert_eq!(indents(lines[5]), 1 * i); //   },
        assert_eq!(indents(lines[6]), 0 * i); // ]

        // Finally, test that the pretty-printed JSON is valid
        Json::from_str(&printed).ok().expect("Pretty-printed JSON is invalid!");
    }
}

#[test]
fn test_set_indent() {
    let mut compact = Encoder::new();
    assert_eq!(compact.set_indent(4), Err(()));

    let mut pretty = Encoder::new_pretty();
    assert_eq!(pretty.set_indent(3), Ok(()));
    let done = pretty.emit_seq(2, |e| {
        e.emit_seq_elt(0, |e| e.emit_u8(1))?;
        // One level deep: three columns become five.
        assert_eq!(e.set_indent(5), Ok(()));
        e.emit_seq_elt(1, |e| e.emit_u8(2))?;
        // Setting the same width again changes nothing.
        assert_eq!(e.set_indent(5), Ok(()));
        e.emit_seq_elt(2, |e| e.emit_u8(3))
    });
    assert_eq!(done, Ok(()));
    assert_eq!(pretty.output(), "[\n   1,\n     2,\n     3\n]");
    assert_eq!(pretty.into_string(), "[\n   1,\n     2,\n     3\n]");

    // A width of zero in between does not lose the level.
    let mut flat = Encoder::new_pretty();
    let done = flat.emit_seq(1, |e| {
        assert_eq!(e.set_indent(0), Ok(()));
        assert_eq!(e.set_indent(4), Ok(()));
        e.emit_seq_elt(0, |e| e.emit_bool(true))
    });
    assert_eq!(done, Ok(()));
    assert_eq!(flat.into_string(), "[\n    true\n]");
}

#[derive(PartialEq, Eq, Hash, Debug)]
enum Enum {
    Foo,
    #[allow(dead_code)]
    Bar,
}

impl Encodable for Enum {
    fn encode(&self, s: &mut Encoder) -> EncodeResult<()> {
        s.emit_enum("Enum", |s| match *self {
            Enum::Foo => s.emit_enum_variant("Foo", 0, 0, |_| Ok(())),
            Enum::Bar => s.emit_enum_variant("Bar", 1, 0, |_| Ok(())),
        })
    }
}

#[test]
fn test_encode_hashmap_with_enum_key() {
    let mut map = HashMap::new();
    map.insert(Enum::Foo, 0);
    let result = encode(&KeyedMap(map)).unwrap();
    assert_eq!(result, r#"{"Foo":0}"#);
}

#[derive(PartialEq, Eq, Hash)]
struct ArbitraryType(u32);

impl Encodable for ArbitraryType {
    fn encode(&self, s: &mut Encoder) -> EncodeResult<()> {
        s.emit_tuple_struct("ArbitraryType", 1, |s| {
            s.emit_tuple_struct_arg(0, |s| self.0.encode(s))
        })
    }
}

#[test]
fn test_encode_hashmap_with_arbitrary_key() {
    let mut hm: HashMap<ArbitraryType, bool> = HashMap::new();
    hm.insert(ArbitraryType(1), true);
    let mut encoder = Encoder::new();
    let result = KeyedMap(hm).encode(&mut encoder);
    match result.err().unwrap() {
        EncoderError::BadHashmapKey => (),
        _ => panic!("expected bad hash map key"),
    }
}

#[test]
fn test_encode_bad_keys() {
    let mut e = Encoder::new();
    let done = e.emit_map(1, |e| e.emit_map_elt_key(0, |e| e.emit_nil()));
    assert_eq!(done, Err(EncoderError::BadHashmapKey));
    assert!(e.is_emitting_map_key());
    assert_eq!(e.emit_bool(true), Err(EncoderError::BadHashmapKey));
    assert_eq!(e.emit_seq(0, |_| Ok(())), Err(EncoderError::BadHashmapKey));
    assert_eq!(e.emit_struct("S", 0, |_| Ok(())), Err(EncoderError::BadHashmapKey));
    assert_eq!(e.emit_option_none(), Err(EncoderError::BadHashmapKey));
    assert_eq!(e.emit_json(&Array(vec![])), Err(EncoderError::BadHashmapKey));
    assert_eq!(e.emit_enum_variant("V", 0, 1, |_| Ok(())), Err(EncoderError::BadHashmapKey));
    assert_eq!(e.emit_enum_struct_variant("V", 0, 0, |_| Ok(())), Err(EncoderError::BadHashmapKey));
    assert_eq!(e.output(), "{");
    // Numbers, strings and variants without fields can be keys.
    assert_eq!(e.emit_i8(-1), Ok(()));
    assert_eq!(e.emit_f64(&float(1.5)), Ok(()));
    assert_eq!(e.emit_json(&U64(7)), Ok(()));
    assert_eq!(e.emit_json(&String("k".to_string())), Ok(()));
    assert_eq!(e.emit_enum_variant("V", 0, 0, |_| Ok(())), Ok(()));
    assert_eq!(e.into_string(), "{\"-1\"\"1.5\"\"7\"\"k\"\"V\"");
}

#[test]
fn test_encode_struct_and_map() {
    let mut e = Encoder::new();
    let done = e.emit_struct("S", 2, |e| {
        e.emit_struct_field("a", 0, |e| e.emit_u32(1))?;
        e.emit_struct_field("b", 1, |e| e.emit_option(|e| e.emit_option_some(|e| e.emit_str("x"))))
    });
    assert_eq!(done, Ok(()));
    assert_eq!(e.into_string(), "{\"a\":1,\"b\":\"x\"}");

    let mut e = Encoder::new_pretty();
    let done = e.emit_struct("S", 2, |e| {
        e.emit_struct_field("a", 0, |e| e.emit_tuple(0, |_| Ok(())))?;
        e.emit_struct_field("b", 1, |e| e.emit_map(0, |_| Ok(())))
    });
    assert_eq!(done, Ok(()));
    assert_eq!(e.into_string(), "{\n  \"a\": [],\n  \"b\": {}\n}");

    let mut e = Encoder::new_pretty();
    let done = e.emit_map(1, |e| {
        e.emit_map_elt_key(0, |e| e.emit_u64(5))?;
        e.emit_map_elt_val(0, |e| e.emit_tuple(1, |e| e.emit_tuple_arg(0, |e| e.emit_nil())))
    });
    assert_eq!(done, Ok(()));
    assert_eq!(e.into_string(), "{\n  \"5\": [\n    null\n  ]\n}");

    let mut e = Encoder::new();
    let done = e.emit_enum_struct_variant("V", 0, 1, |e| {
        e.emit_enum_struct_variant_field("x", 0, |e| e.emit_i16(-2))
    });
    assert_eq!(done, Ok(()));
    assert_eq!(e.into_string(), "{\"variant\":\"V\",\"fields\":[-2]}");
}

#[test]
fn test_pretty_json_new() {
    let value = Array(vec![U64(1)]);
    assert_eq!(PrettyJson::new(&value).to_string(), "[\n  1\n]");
}
