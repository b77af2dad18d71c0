// Reading typed values out of documents.

use std::collections::{BTreeMap, HashMap};

use rustc_serialize::json::DecoderError::{
    ApplicationError, ExpectedError, MissingFieldError, ParseError, UnknownVariantError, EOF,
};
use rustc_serialize::json::ErrorCode::EOFWhileParsingValue;
use rustc_serialize::json::Json::{Array, Null, U64};
use rustc_serialize::json::ParserError::SyntaxError;
use rustc_serialize::json::{
    decode, encode, Decimal, DecodeResult, Decoder, DecoderError, EncodeResult, Encoder, Float,
    Json,
};
use rustc_serialize::{Decodable, Encodable};

// The number that a decimal denotes, computed the way a reader of
// floating-point numbers adds up an integer part, a fraction and an exponent.
fn number_of(f: &Float) -> f64 {
    let d = match f {
        Float::Nan => return f64::NAN,
        Float::Infinity => return f64::INFINITY,
        Float::NegInfinity => return f64::NEG_INFINITY,
        Float::Finite(d) => d,
    };
    let mut res = d.integer() as f64;
    let mut dec = 1.0;
    for digit in d.fraction().iter() {
        dec /= 10.0;
        res += (*digit as f64) * dec;
    }
    if d.exponent() != 0 {
        let exp = 10_f64.powi(d.exponent() as i32);
        if d.is_exponent_negative() {
            res /= exp;
        } else {
            res *= exp;
        }
    }
    if d.is_negative() {
        res *= -1.0;
    }
    res
}

fn decode_number(s: &str) -> f64 {
    let v: Float = decode(s).unwrap();
    number_of(&v)
}

#[derive(Eq, PartialEq, Debug)]
struct OptionData {
    opt: Option<usize>,
}

impl Decodable for OptionData {
    fn decode(d: &mut Decoder) -> DecodeResult<OptionData> {
        d.read_struct("OptionData", 1, |d| {
            Ok(OptionData { opt: d.read_struct_field("opt", 0, |d| Decodable::decode(d))? })
        })
    }
}

#[test]
fn test_decode_option_none() {
    let s = "{}";
    let obj: OptionData = decode(s).unwrap();
    assert_eq!(obj, OptionData { opt: None });
}

#[test]
fn test_decode_option_some() {
    let s = "{ \"opt\": 10 }";
    let obj: OptionData = decode(s).unwrap();
    assert_eq!(obj, OptionData { opt: Some(10) });
}

#[test]
fn test_decode_option_malformed() {
    check_err::<OptionData>(
        "{ \"opt\": [] }",
        ExpectedError("Number".to_string(), "[]".to_string()),
    );
    check_err::<OptionData>(
        "{ \"opt\": false }",
        ExpectedError("Number".to_string(), "false".to_string()),
    );
}

#[derive(PartialEq, Debug)]
enum Animal {
    Dog,
    Frog(String, isize),
}

impl Decodable for Animal {
    fn decode(d: &mut Decoder) -> DecodeResult<Animal> {
        d.read_enum("Animal", |d| {
            d.read_enum_variant(&["Dog", "Frog"], |d, i| {
                Ok(match i {
                    0 => Animal::Dog,
                    1 => Animal::Frog(
                        d.read_enum_variant_arg(0, |d| Decodable::decode(d))?,
                        d.read_enum_variant_arg(1, |d| Decodable::decode(d))?,
                    ),
                    _ => unreachable!(),
                })
            })
        })
    }
}

#[derive(PartialEq, Debug)]
struct Inner {
    a: (),
    b: usize,
    c: Vec<String>,
}

impl Decodable for Inner {
    fn decode(d: &mut Decoder) -> DecodeResult<Inner> {
        d.read_struct("Inner", 3, |d| {
            Ok(Inner {
                a: d.read_struct_field("a", 0, |d| Decodable::decode(d))?,
                b: d.read_struct_field("b", 1, |d| Decodable::decode(d))?,
                c: d.read_struct_field("c", 2, |d| Decodable::decode(d))?,
            })
        })
    }
}

#[derive(PartialEq, Debug)]
struct Outer {
    inner: Vec<Inner>,
}

impl Decodable for Outer {
    fn decode(d: &mut Decoder) -> DecodeResult<Outer> {
        d.read_struct("Outer", 1, |d| {
            Ok(Outer { inner: d.read_struct_field("inner", 0, |d| Decodable::decode(d))? })
        })
    }
}

#[test]
fn test_decode_identifiers() {
    let v: () = decode("null").unwrap();
    assert_eq!(v, ());

    let v: bool = decode("true").unwrap();
    assert_eq!(v, true);

    let v: bool = decode("false").unwrap();
    assert_eq!(v, false);
}

#[test]
fn test_decode_numbers() {
    assert_eq!(decode_number("3"), 3.0);
    assert_eq!(decode_number("3.1"), 3.1);
    assert_eq!(decode_number("-1.2"), -1.2);
    assert_eq!(decode_number("0.4"), 0.4);
    assert_eq!(decode_number("0.4e5"), 0.4e5);
    assert_eq!(decode_number("0.4e15"), 0.4e15);
    assert_eq!(decode_number("0.4e-01"), 0.4e-01);

    let v: u64 = decode("0").unwrap();
    assert_eq!(v, 0);

    let v: u64 = decode("18446744073709551615").unwrap();
    assert_eq!(v, u64::MAX);

    let v: i64 = decode("-9223372036854775808").unwrap();
    assert_eq!(v, i64::MIN);

    let v: i64 = decode("9223372036854775807").unwrap();
    assert_eq!(v, i64::MAX);

    let res: DecodeResult<i64> = decode("765.25252");
    assert_eq!(res, Err(ExpectedError("Integer".to_string(), "765.25252".to_string())));
}

#[test]
fn test_decode_numbers_out_of_range() {
    let mut d = Decoder::new(U64(9223372036854775807));
    assert_eq!(d.read_i64(), Ok(i64::MAX));
    let mut d = Decoder::new(U64(18446744073709551615));
    assert_eq!(
        d.read_i64(),
        Err(ExpectedError("Number".to_string(), "18446744073709551615".to_string()))
    );
    assert_eq!(d.remaining(), 0);
    assert_eq!(d.read_i64(), Err(EOF));

    assert_eq!(decode::<u8>("255"), Ok(255));
    assert_eq!(decode::<u8>("256"), Err(ExpectedError("Number".to_string(), "256".to_string())));
    assert_eq!(decode::<u8>("-1"), Err(ExpectedError("Number".to_string(), "-1".to_string())));
    assert_eq!(decode::<i8>("-128"), Ok(-128));
    assert_eq!(decode::<i8>("-129"), Err(ExpectedError("Number".to_string(), "-129".to_string())));
    assert_eq!(decode::<i8>("128"), Err(ExpectedError("Number".to_string(), "128".to_string())));
    assert_eq!(decode::<u16>("65535"), Ok(65535));
    assert_eq!(decode::<i16>("-32768"), Ok(i16::MIN));
    assert_eq!(decode::<u32>("4294967296").is_err(), true);
    assert_eq!(decode::<i32>("-2147483648"), Ok(i32::MIN));
    assert_eq!(decode::<usize>("7"), Ok(7));
    assert_eq!(decode::<isize>("-7"), Ok(-7));
    assert_eq!(decode::<u64>("null"), Err(ExpectedError("Number".to_string(), "null".to_string())));
}

#[test]
fn test_decode_numbers_from_strings() {
    assert_eq!(decode::<u64>("\"12\""), Ok(12));
    assert_eq!(decode::<u64>("\"+12\""), Ok(12));
    assert_eq!(decode::<u64>("\"0012\""), Ok(12));
    assert_eq!(decode::<i64>("\"-12\""), Ok(-12));
    assert_eq!(decode::<i64>("\"-9223372036854775808\""), Ok(i64::MIN));
    assert_eq!(decode::<u64>("\"18446744073709551615\""), Ok(u64::MAX));
    for text in ["", "+", "-", "-0", "1 ", " 1", "1.0", "0x1", "18446744073709551616", "1a"] {
        assert_eq!(
            decode::<u64>(&format!("\"{}\"", text)),
            Err(ExpectedError("Number".to_string(), text.to_string()))
        );
    }
    assert_eq!(decode::<i64>("\"-0\""), Ok(0));
    assert_eq!(
        decode::<i64>("\"9223372036854775808\""),
        Err(ExpectedError("Number".to_string(), "9223372036854775808".to_string()))
    );
    assert_eq!(
        decode::<i8>("\"999999999999999999999999999\""),
        Err(ExpectedError("Number".to_string(), "999999999999999999999999999".to_string()))
    );
    assert_eq!(decode_number("\"2.5\""), 2.5);
    assert_eq!(decode_number("\"-3\""), -3.0);
    assert_eq!(
        decode::<Float>("\"x\""),
        Err(ExpectedError("Number".to_string(), "x".to_string()))
    );
    assert_eq!(decode::<Float>("true"), Err(ExpectedError("Number".to_string(), "true".to_string())));
}

#[test]
fn test_decode_str() {
    let s = [
        ("\"\"", ""),
        ("\"foo\"", "foo"),
        ("\"\\\"\"", "\""),
        ("\"\\b\"", "\x08"),
        ("\"\\n\"", "\n"),
        ("\"\\r\"", "\r"),
        ("\"\\t\"", "\t"),
        ("\"\\u12ab\"", "\u{12ab}"),
        ("\"\\uAB12\"", "\u{AB12}"),
    ];

    for &(i, o) in s.iter() {
        let v: String = decode(i).unwrap();
        assert_eq!(v, o);
    }
}

#[test]
fn test_decode_char() {
    assert_eq!(decode::<char>("\"a\""), Ok('a'));
    assert_eq!(decode::<char>("\"\u{1D306}\""), Ok('\u{1D306}'));
    assert_eq!(
        decode::<char>("\"ab\""),
        Err(ExpectedError("single character string".to_string(), "ab".to_string()))
    );
    assert_eq!(
        decode::<char>("\"\""),
        Err(ExpectedError("single character string".to_string(), "".to_string()))
    );
    assert_eq!(decode::<char>("1"), Err(ExpectedError("String".to_string(), "1".to_string())));
    assert_eq!(decode::<String>("[1]"), Err(ExpectedError("String".to_string(), "[1]".to_string())));
    assert_eq!(decode::<bool>("{}"), Err(ExpectedError("Boolean".to_string(), "{}".to_string())));
    assert_eq!(decode::<()>("0.5"), Err(ExpectedError("Null".to_string(), "0.5".to_string())));
}

#[test]
fn test_decode_array() {
    let v: Vec<()> = decode("[]").unwrap();
    assert_eq!(v, vec![]);

    let v: Vec<()> = decode("[null]").unwrap();
    assert_eq!(v, vec![()]);

    let v: Vec<bool> = decode("[true]").unwrap();
    assert_eq!(v, vec![true]);

    let v: Vec<isize> = decode("[3, 1]").unwrap();
    assert_eq!(v, vec![3, 1]);

    let v: Vec<Vec<usize>> = decode("[[3], [1, 2]]").unwrap();
    assert_eq!(v, vec![vec![3], vec![1, 2]]);
}

#[test]
fn test_decode_tuple() {
    let t: (usize, usize, usize) = decode("[1, 2, 3]").unwrap();
    assert_eq!(t, (1, 2, 3));

    let t: (usize, String) = decode("[1, \"two\"]").unwrap();
    assert_eq!(t, (1, "two".to_string()));
}

#[test]
fn test_decode_tuple_malformed_types() {
    assert!(decode::<(usize, String)>("[1, 2]").is_err());
}

#[test]
fn test_decode_tuple_malformed_length() {
    assert!(decode::<(usize, usize)>("[1, 2, 3]").is_err());
    assert_eq!(
        decode::<(usize, usize)>("[1, 2, 3]"),
        Err(ExpectedError("Tuple2".to_string(), "Tuple3".to_string()))
    );
}

#[test]
fn test_decode_struct() {
    let s = "{
            \"inner\": [
                { \"a\": null, \"b\": 2, \"c\": [\"abc\", \"xyz\"] }
            ]
        }";

    let v: Outer = decode(s).unwrap();
    assert_eq!(
        v,
        Outer {
            inner: vec![Inner { a: (), b: 2, c: vec!["abc".to_string(), "xyz".to_string()] }]
        }
    );
}

struct FloatStruct {
    f: Float,
    a: Vec<Float>,
}

impl Decodable for FloatStruct {
    fn decode(d: &mut Decoder) -> DecodeResult<FloatStruct> {
        d.read_struct("FloatStruct", 2, |d| {
            Ok(FloatStruct {
                f: d.read_struct_field("f", 0, |d| Decodable::decode(d))?,
                a: d.read_struct_field("a", 1, |d| Decodable::decode(d))?,
            })
        })
    }
}

#[test]
fn test_decode_struct_with_nan() {
    let s = "{\"f\":null,\"a\":[null,123]}";
    let obj: FloatStruct = decode(s).unwrap();
    assert!(obj.f.is_nan());
    assert!(obj.a[0].is_nan());
    assert_eq!(number_of(&obj.a[1]), 123f64);
    assert!(obj.a[1].is_finite());
    assert!(number_of(&obj.f).is_nan());
}

#[test]
fn test_decode_option() {
    let value: Option<String> = decode("null").unwrap();
    assert_eq!(value, None);

    let value: Option<String> = decode("\"jodhpurs\"").unwrap();
    assert_eq!(value, Some("jodhpurs".to_string()));
}

#[test]
fn test_decode_enum() {
    let value: Animal = decode("\"Dog\"").unwrap();
    assert_eq!(value, Animal::Dog);

    let s = "{\"variant\":\"Frog\",\"fields\":[\"Henry\",349]}";
    let value: Animal = decode(s).unwrap();
    assert_eq!(value, Animal::Frog("Henry".to_string(), 349));
}

// A map whose entries are read one by one, the key before the value.
struct TreeMap<V>(BTreeMap<String, V>);

impl<V: Decodable> Decodable for TreeMap<V> {
    fn decode(d: &mut Decoder) -> DecodeResult<TreeMap<V>> {
        d.read_map(|d, len| {
            let mut map = BTreeMap::new();
            for i in 0..len {
                let key = d.read_map_elt_key(i, |d| Decodable::decode(d))?;
                let val = d.read_map_elt_val(i, |d| Decodable::decode(d))?;
                map.insert(key, val);
            }
            Ok(TreeMap(map))
        })
    }
}

#[test]
fn test_decode_map() {
    let s = "{\"a\": \"Dog\", \"b\": {\"variant\":\"Frog\",\
                  \"fields\":[\"Henry\", 349]}}";
    let TreeMap(mut map): TreeMap<Animal> = decode(s).unwrap();

    assert_eq!(map.remove(&"a".to_string()), Some(Animal::Dog));
    assert_eq!(map.remove(&"b".to_string()), Some(Animal::Frog("Henry".to_string(), 349)));
}

#[allow(dead_code)]
struct DecodeStruct {
    x: Float,
    y: bool,
    z: String,
    w: Vec<DecodeStruct>,
}

impl Decodable for DecodeStruct {
    fn decode(d: &mut Decoder) -> DecodeResult<DecodeStruct> {
        d.read_struct("DecodeStruct", 4, |d| {
            Ok(DecodeStruct {
                x: d.read_struct_field("x", 0, |d| Decodable::decode(d))?,
                y: d.read_struct_field("y", 1, |d| Decodable::decode(d))?,
                z: d.read_struct_field("z", 2, |d| Decodable::decode(d))?,
                w: d.read_struct_field("w", 3, |d| Decodable::decode(d))?,
            })
        })
    }
}

#[allow(dead_code)]
enum DecodeEnum {
    A(Float),
    B(String),
}

impl Decodable for DecodeEnum {
    fn decode(d: &mut Decoder) -> DecodeResult<DecodeEnum> {
        d.read_enum("DecodeEnum", |d| {
            d.read_enum_variant(&["A", "B"], |d, i| {
                Ok(match i {
                    0 => DecodeEnum::A(d.read_enum_variant_arg(0, |d| Decodable::decode(d))?),
                    1 => DecodeEnum::B(d.read_enum_variant_arg(0, |d| Decodable::decode(d))?),
                    _ => unreachable!(),
                })
            })
        })
    }
}

fn check_err<T: Decodable>(to_parse: &'static str, expected: DecoderError) {
    let res: DecodeResult<T> = match Json::from_str(to_parse) {
        Err(e) => Err(ParseError(e)),
        Ok(json) => Decodable::decode(&mut Decoder::new(json)),
    };
    match res {
        Ok(_) => panic!("`{:?}` parsed & decoded ok, expecting error `{:?}`", to_parse, expected),
        Err(ParseError(e)) => panic!("`{}` is not valid json: {:?}", to_parse, e),
        Err(e) => {
            assert_eq!(e, expected);
        }
    }
}

#[test]
fn test_decode_errors_struct() {
    check_err::<DecodeStruct>("[]", ExpectedError("Object".to_string(), "[]".to_string()));
    check_err::<DecodeStruct>(
        "{\"x\": true, \"y\": true, \"z\": \"\", \"w\": []}",
        ExpectedError("Number".to_string(), "true".to_string()),
    );
    check_err::<DecodeStruct>(
        "{\"x\": 1, \"y\": [], \"z\": \"\", \"w\": []}",
        ExpectedError("Boolean".to_string(), "[]".to_string()),
    );
    check_err::<DecodeStruct>(
        "{\"x\": 1, \"y\": true, \"z\": {}, \"w\": []}",
        ExpectedError("String".to_string(), "{}".to_string()),
    );
    check_err::<DecodeStruct>(
        "{\"x\": 1, \"y\": true, \"z\": \"\", \"w\": null}",
        ExpectedError("Array".to_string(), "null".to_string()),
    );
    check_err::<DecodeStruct>(
        "{\"x\": 1, \"y\": true, \"z\": \"\"}",
        MissingFieldError("w".to_string()),
    );
}

#[test]
fn test_decode_errors_enum() {
    check_err::<DecodeEnum>("{}", MissingFieldError("variant".to_string()));
    check_err::<DecodeEnum>(
        "{\"variant\": 1}",
        ExpectedError("String".to_string(), "1".to_string()),
    );
    check_err::<DecodeEnum>("{\"variant\": \"A\"}", MissingFieldError("fields".to_string()));
    check_err::<DecodeEnum>(
        "{\"variant\": \"A\", \"fields\": null}",
        ExpectedError("Array".to_string(), "null".to_string()),
    );
    check_err::<DecodeEnum>(
        "{\"variant\": \"C\", \"fields\": []}",
        UnknownVariantError("C".to_string()),
    );
    check_err::<DecodeEnum>(
        "[1]",
        ExpectedError("String or Object".to_string(), "[1]".to_string()),
    );
}

#[test]
fn test_decode_parse_error() {
    assert_eq!(decode::<u8>(""), Err(ParseError(SyntaxError(EOFWhileParsingValue, 1, 1))));
    assert_eq!(
        DecoderError::from(SyntaxError(EOFWhileParsingValue, 1, 1)),
        ParseError(SyntaxError(EOFWhileParsingValue, 1, 1))
    );
    let mut d = Decoder::new(Null);
    assert_eq!(d.error("no"), ApplicationError("no".to_string()));
    assert_eq!(d.read_json(), Ok(Null));
    assert_eq!(d.read_json(), Err(EOF));
    assert_eq!(d.read_nil(), Err(EOF));
    assert_eq!(d.read_option(|_, _| Ok(())), Err(EOF));
    assert_eq!(d.read_seq(|_, _| Ok(())), Err(EOF));
    assert_eq!(d.read_map(|_, _| Ok(())), Err(EOF));
    assert_eq!(d.read_struct_field("a", 0, |_| Ok(())), Err(EOF));
    assert_eq!(d.read_enum_variant(&["a"], |_, _| Ok(())), Err(EOF));
    assert_eq!(d.read_tuple(0, |_| Ok(())), Err(EOF));
    d.unread(Array(vec![U64(1), U64(2)]));
    assert_eq!(d.begin_seq(), Ok(2));
    assert_eq!(d.read_u8(), Ok(1));
    assert_eq!(d.read_u8(), Ok(2));
    assert_eq!(d.remaining(), 0);
}

#[test]
fn test_decode_map_order() {
    // The entries are handed out from the last key to the first.
    let json = Json::from_str("{\"a\":1,\"b\":2}").unwrap();
    let mut d = Decoder::new(json);
    let seen = d.read_map(|d, len| {
        assert_eq!(len, 2);
        let mut seen = Vec::new();
        for i in 0..len {
            let k: String = d.read_map_elt_key(i, |d| d.read_str())?;
            let v: u8 = d.read_map_elt_val(i, |d| d.read_u8())?;
            seen.push((k, v));
        }
        Ok(seen)
    });
    assert_eq!(seen, Ok(vec![("b".to_string(), 2), ("a".to_string(), 1)]));
}

// A type that reads a map with numbers as keys.
struct NumberMap(HashMap<usize, bool>);

impl Decodable for NumberMap {
    fn decode(d: &mut Decoder) -> DecodeResult<NumberMap> {
        d.read_map(|d, len| {
            let mut map = HashMap::new();
            for i in 0..len {
                let key = d.read_map_elt_key(i, |d| Decodable::decode(d))?;
                let val = d.read_map_elt_val(i, |d| Decodable::decode(d))?;
                map.insert(key, val);
            }
            Ok(NumberMap(map))
        })
    }
}

#[test]
fn test_hashmap_with_numeric_key_can_handle_double_quote_delimited_key() {
    let json_str = "{\"1\":true}";
    let json_obj = match Json::from_str(json_str) {
        Err(_) => panic!("Unable to parse json_str: {}", json_str),
        Ok(o) => o,
    };
    let mut decoder = Decoder::new(json_obj);
    let NumberMap(hm) = Decodable::decode(&mut decoder).unwrap();
    assert_eq!(hm.get(&1), Some(&true));
}

#[test]
fn test_hashmap_with_numeric_key_will_error_with_string_keys() {
    let json_str = "{\"a\":true}";
    let json_obj = match Json::from_str(json_str) {
        Err(_) => panic!("Unable to parse json_str: {}", json_str),
        Ok(o) => o,
    };
    let mut decoder = Decoder::new(json_obj);
    let result: Result<NumberMap, DecoderError> = Decodable::decode(&mut decoder);
    assert_eq!(result.err(), Some(ExpectedError("Number".to_string(), "a".to_string())));
}

#[derive(Eq, Hash, PartialEq, Debug)]
enum Enum {
    Foo,
    #[allow(dead_code)]
    Bar,
}

impl Encodable for Enum {
    fn encode(&self, s: &mut Encoder) -> EncodeResult<()> {
        s.emit_enum("Enum", |s| match *self {
            Enum::Foo => s.emit_enum_variant("Foo", 0, 0, |_| Ok(())),
            Enum::Bar => s.emit_enum_variant("Bar", 1, 0, |_| Ok(())),
        })
    }
}

impl Decodable for Enum {
    fn decode(d: &mut Decoder) -> DecodeResult<Enum> {
        d.read_enum("Enum", |d| {
            d.read_enum_variant(&["Foo", "Bar"], |_, i| {
                Ok(match i {
                    0 => Enum::Foo,
                    1 => Enum::Bar,
                    _ => unreachable!(),
                })
            })
        })
    }
}

#[derive(PartialEq, Debug)]
struct EnumMap(HashMap<Enum, i32>);

impl Encodable for EnumMap {
    fn encode(&self, e: &mut Encoder) -> EncodeResult<()> {
        e.emit_map(self.0.len(), |e| {
            let mut i = 0;
            for (key, val) in self.0.iter() {
                e.emit_map_elt_key(i, |e| key.encode(e))?;
                e.emit_map_elt_val(i, |e| val.encode(e))?;
                i += 1;
            }
            Ok(())
        })
    }
}

impl Decodable for EnumMap {
    fn decode(d: &mut Decoder) -> DecodeResult<EnumMap> {
        d.read_map(|d, len| {
            let mut map = HashMap::new();
            for i in 0..len {
                let key = d.read_map_elt_key(i, |d| Decodable::decode(d))?;
                let val = d.read_map_elt_val(i, |d| Decodable::decode(d))?;
                map.insert(key, val);
            }
            Ok(EnumMap(map))
        })
    }
}

#[test]
fn test_hashmap_with_enum_key() {
    let mut map = HashMap::new();
    map.insert(Enum::Foo, 0);
    let map = EnumMap(map);
    let result = encode(&map).unwrap();
    assert_eq!(result, r#"{"Foo":0}"#);
    let decoded: EnumMap = decode(&result).unwrap();
    assert_eq!(map, decoded);
}

#[derive(Debug)]
enum ChatEvent {
    Variant(i32),
}

impl Decodable for ChatEvent {
    fn decode(d: &mut Decoder) -> DecodeResult<ChatEvent> {
        d.read_enum("ChatEvent", |d| {
            d.read_enum_variant(&["Variant"], |d, i| {
                Ok(match i {
                    0 => ChatEvent::Variant(d.read_enum_variant_arg(0, |d| Decodable::decode(d))?),
                    _ => unreachable!(),
                })
            })
        })
    }
}

#[test]
fn test_bad_json_stack_depleted() {
    let serialized = "{\"variant\": \"Variant\", \"fields\": []}";
    let r: Result<ChatEvent, _> = decode(serialized);
    assert!(r.unwrap_err() == EOF);
}

#[test]
fn test_decode_json_itself() {
    let text = "{\"a\":[1,-2,3.5,\"x\",true,null,{}]}";
    let value: Json = decode(text).unwrap();
    assert_eq!(value, Json::from_str(text).unwrap());
    assert_eq!(encode(&value), Ok(text.to_string()));
    let d = Decimal::new(false, 3, vec![5], false, 0).unwrap();
    assert_eq!(value.find("a").unwrap().as_array().unwrap()[2], Json::F64(Float::Finite(d)));
}

#[derive(PartialEq, Debug)]
enum Shape {
    Dot,
    Box { w: u8, h: u8 },
}

impl Decodable for Shape {
    fn decode(d: &mut Decoder) -> DecodeResult<Shape> {
        d.read_enum("Shape", |d| {
            d.read_enum_struct_variant(&["Dot", "Box"], |d, i| {
                Ok(match i {
                    0 => Shape::Dot,
                    _ => Shape::Box {
                        w: d.read_enum_struct_variant_field("w", 0, |d| d.read_u8())?,
                        h: d.read_enum_struct_variant_field("h", 1, |d| d.read_u8())?,
                    },
                })
            })
        })
    }
}

#[derive(PartialEq, Debug)]
struct Pair(i16, bool);

impl Decodable for Pair {
    fn decode(d: &mut Decoder) -> DecodeResult<Pair> {
        d.read_tuple_struct("Pair", 2, |d| {
            Ok(Pair(
                d.read_tuple_struct_arg(0, |d| d.read_i16())?,
                d.read_tuple_struct_arg(1, |d| d.read_bool())?,
            ))
        })
    }
}

#[test]
fn test_decode_struct_variants_and_tuple_structs() {
    assert_eq!(decode::<Shape>("\"Dot\""), Ok(Shape::Dot));
    assert_eq!(
        decode::<Shape>("{\"variant\":\"Box\",\"fields\":[3,4]}"),
        Ok(Shape::Box { w: 3, h: 4 })
    );
    assert_eq!(
        decode::<Shape>("{\"fields\":[3,4],\"variant\":\"Disc\"}"),
        Err(UnknownVariantError("Disc".to_string()))
    );
    assert_eq!(decode::<Pair>("[-5, true]"), Ok(Pair(-5, true)));
    assert_eq!(
        decode::<Pair>("[-5]"),
        Err(ExpectedError("Tuple2".to_string(), "Tuple1".to_string()))
    );
    assert_eq!(decode::<Pair>("{}"), Err(ExpectedError("Array".to_string(), "{}".to_string())));
    let mut d = Decoder::new(Json::from_str("[7, 8]").unwrap());
    let sum = d.read_tuple(2, |d| {
        let a = d.read_tuple_arg(0, |d| d.read_u32())?;
        let b = d.read_tuple_arg(1, |d| d.read_u64())?;
        Ok(a as u64 + b)
    });
    assert_eq!(sum, Ok(15));
    let mut d = Decoder::new(Json::from_str("[1, [2, 3]]").unwrap());
    assert_eq!(d.begin_tuple(2), Ok(()));
    assert_eq!(d.read_usize(), Ok(1));
    assert_eq!(d.begin_tuple(3), Err(ExpectedError("Tuple3".to_string(), "Tuple2".to_string())));
    assert_eq!(d.read_isize(), Ok(2));
    assert_eq!(d.read_i32(), Ok(3));
    assert_eq!(d.read_i8(), Err(EOF));
}
