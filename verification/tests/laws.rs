// What holds of every value, tried on some.

use std::collections::{BTreeMap, HashMap};

use rustc_serialize::json::Json::{Array, Boolean, Null, Object, String, F64, I64, U64};
use rustc_serialize::json::{Decimal, Float, Json, ToJson};

fn object(items: &[(&str, Json)]) -> Json {
    let mut d = rustc_serialize::json::Object::new();
    for (key, value) in items.iter() {
        d.insert(key.to_string(), value.clone());
    }
    Object(d)
}

fn sample() -> Json {
    object(&[
        ("b", Array(vec![U64(0), I64(-7), U64(u64::MAX), I64(i64::MIN)])),
        ("a", String("q\"\\\u{8}\u{c}\n\r\t\u{0}\u{1f}\u{7f}\u{80}/é\u{1D306}".to_string())),
        ("", Array(vec![])),
        ("é", object(&[])),
        (
            "c",
            object(&[
                ("x", Null),
                ("y", Boolean(false)),
                ("z", F64(Float::Finite(Decimal::new(true, 0, vec![0, 5], true, 12).unwrap()))),
                ("w", F64(Float::from_u64(3))),
                ("v", Array(vec![Array(vec![Array(vec![Boolean(true)])])])),
            ]),
        ),
    ])
}

#[test]
fn test_round_trip() {
    let value = sample();
    assert_eq!(Json::from_str(&value.to_string()), Ok(value.clone()));
    assert_eq!(Json::from_str(&value.pretty().to_string()), Ok(value.clone()));
    for scalar in [Null, Boolean(true), U64(17), I64(-1), String("".to_string())] {
        assert_eq!(Json::from_str(&scalar.to_string()), Ok(scalar.clone()));
        assert_eq!(Json::from_str(&scalar.pretty().to_string()), Ok(scalar));
    }
}

#[test]
fn test_is_readable() {
    assert!(sample().is_readable());
    assert!(U64(0).is_readable());
    assert!(I64(-1).is_readable());
    assert!(!I64(0).is_readable());
    assert!(!F64(Float::Nan).is_readable());
    assert!(!Array(vec![Null, F64(Float::Infinity)]).is_readable());
    assert!(!object(&[("a", Array(vec![I64(5)]))]).is_readable());
    assert!(object(&[("a", Array(vec![I64(-5)]))]).is_readable());
}

#[test]
fn test_round_trip_leaves_out() {
    // A signed integer that is not negative is read as an unsigned one.
    assert_eq!(Json::from_str(&I64(5).to_string()), Ok(U64(5)));
    // What is no number is written as null.
    assert_eq!(Json::from_str(&F64(Float::Nan).to_string()), Ok(Null));
    assert_eq!(Json::from_str(&F64(Float::Infinity).to_string()), Ok(Null));
    assert_eq!(Json::from_str(&F64(Float::NegInfinity).to_string()), Ok(Null));
}

#[test]
fn test_reprint_is_the_same() {
    let value = sample();
    let once = value.pretty().to_string();
    let twice = Json::from_str(&once).unwrap().pretty().to_string();
    assert_eq!(once, twice);
    let once = value.to_string();
    let twice = Json::from_str(&once).unwrap().to_string();
    assert_eq!(once, twice);
}

#[test]
fn test_object_key_ordering() {
    let mut first = rustc_serialize::json::Object::new();
    first.insert("b".to_string(), U64(2));
    first.insert("a".to_string(), U64(1));
    first.insert("c".to_string(), U64(3));
    let mut second = rustc_serialize::json::Object::new();
    second.insert("c".to_string(), U64(3));
    second.insert("a".to_string(), U64(1));
    second.insert("b".to_string(), U64(2));
    assert_eq!(first, second);
    assert_eq!(first.key_at(0), "a");
    assert_eq!(first.key_at(1), "b");
    assert_eq!(first.key_at(2), "c");
    assert_eq!(first.value_at(2), &U64(3));
    assert!(Object(first.clone()) == Object(second.clone()));
    assert!(Object(first.clone()).same(&Object(second)));
    assert_eq!(Object(first).to_string(), "{\"a\":1,\"b\":2,\"c\":3}");
}

#[test]
fn test_object_bindings() {
    let mut o = rustc_serialize::json::Object::new();
    assert!(o.is_empty());
    assert_eq!(o.insert("k".to_string(), U64(1)), None);
    assert_eq!(o.insert("k".to_string(), U64(2)), Some(U64(1)));
    assert_eq!(o.insert("j".to_string(), Null), None);
    assert_eq!(o.len(), 2);
    assert!(o.contains_key("k"));
    assert!(!o.contains_key("l"));
    assert_eq!(o.get("k"), Some(&U64(2)));
    assert_eq!(o.get("i"), None);
    assert_eq!(o.remove("i"), None);
    assert_eq!(o.remove("j"), Some(Null));
    assert_eq!(o.len(), 1);
    assert_eq!(o.clone().into_entries(), vec![("k".to_string(), U64(2))]);
    // The order of keys is that of their bytes.
    let mut o = rustc_serialize::json::Object::new();
    for key in ["b", "", "aa", "a", "é", "z", "B", "\u{10000}", "\u{ffff}"] {
        o.insert(key.to_string(), Null);
    }
    let keys: Vec<std::string::String> = (0..o.len()).map(|i| o.key_at(i).to_string()).collect();
    let mut sorted = keys.clone();
    sorted.sort();
    assert_eq!(keys, sorted);
    assert_eq!(keys[0], "");
}

#[test]
fn test_mutable_access() {
    let mut value = object(&[("a", Array(vec![U64(1)]))]);
    assert!(value.as_array_mut().is_none());
    value.as_object_mut().unwrap().insert("b".to_string(), Null);
    assert_eq!(value, object(&[("a", Array(vec![U64(1)])), ("b", Null)]));
    let mut list = Array(vec![U64(1)]);
    assert!(list.as_object_mut().is_none());
    list.as_array_mut().unwrap().push(U64(2));
    assert_eq!(list, Array(vec![U64(1), U64(2)]));
}

#[test]
fn test_same() {
    assert!(sample().same(&sample()));
    assert!(sample() == sample().clone());
    assert!(!U64(1).same(&I64(1)));
    assert!(U64(1) != I64(1));
    assert!(!Array(vec![U64(1)]).same(&Array(vec![U64(1), U64(1)])));
    assert!(!Array(vec![U64(1)]).same(&Array(vec![U64(2)])));
    assert!(!object(&[("a", Null)]).same(&object(&[("b", Null)])));
    assert!(!object(&[("a", Null)]).same(&object(&[("a", U64(0))])));
    assert!(F64(Float::Nan).same(&F64(Float::Nan)));
    assert!(!F64(Float::from_u64(1)).same(&F64(Float::from_i64(-1))));
    assert!(Float::from_u64(1).same(&Float::from_i64(1)));
}

// A map with strings as keys, as a JSON object.
struct Tree<A>(BTreeMap<std::string::String, A>);

impl<A: ToJson> ToJson for Tree<A> {
    fn to_json(&self) -> Json {
        let mut d = rustc_serialize::json::Object::new();
        for (key, value) in self.0.iter() {
            d.insert((*key).clone(), value.to_json());
        }
        Object(d)
    }
}

// The same of a map that is walked in no order.
struct Hash<A>(HashMap<std::string::String, A>);

impl<A: ToJson> ToJson for Hash<A> {
    fn to_json(&self) -> Json {
        let mut d = rustc_serialize::json::Object::new();
        for (key, value) in self.0.iter() {
            d.insert((*key).clone(), value.to_json());
        }
        Object(d)
    }
}

#[test]
fn test_to_json() {
    let array2 = Array(vec![I64(1), I64(2)]);
    let array3 = Array(vec![I64(1), I64(2), I64(3)]);
    let object = {
        let mut tree_map = rustc_serialize::json::Object::new();
        tree_map.insert("a".to_string(), U64(1));
        tree_map.insert("b".to_string(), U64(2));
        Object(tree_map)
    };

    assert_eq!(array2.to_json(), array2);
    assert_eq!(object.to_json(), object);
    assert_eq!(3_isize.to_json(), I64(3));
    assert_eq!(4_i8.to_json(), I64(4));
    assert_eq!(5_i16.to_json(), I64(5));
    assert_eq!(6_i32.to_json(), I64(6));
    assert_eq!(7_i64.to_json(), I64(7));
    assert_eq!(8_usize.to_json(), U64(8));
    assert_eq!(9_u8.to_json(), U64(9));
    assert_eq!(10_u16.to_json(), U64(10));
    assert_eq!(11_u32.to_json(), U64(11));
    assert_eq!(12_u64.to_json(), U64(12));
    assert_eq!(Float::from_u64(13).to_json(), F64(Float::from_u64(13)));
    assert_eq!(Float::from_u64(14).to_json(), F64(Float::from_u64(14)));
    assert_eq!(().to_json(), Null);
    assert_eq!(Float::Infinity.to_json(), Null);
    assert_eq!(Float::Nan.to_json(), Null);
    assert_eq!(true.to_json(), Boolean(true));
    assert_eq!(false.to_json(), Boolean(false));
    assert_eq!("abc".to_json(), String("abc".to_string()));
    assert_eq!("abc".to_string().to_json(), String("abc".to_string()));
    assert_eq!((1_i32, 2_i32).to_json(), array2);
    assert_eq!((1_i32, 2_i32, 3_i32).to_json(), array3);
    assert_eq!([1_i32, 2].to_json(), array2);
    assert_eq!((&[1_i32, 2, 3]).to_json(), array3);
    assert_eq!((vec![1_i32, 2]).to_json(), array2);
    assert_eq!(vec![1_i32, 2, 3].to_json(), array3);
    let mut tree_map = BTreeMap::new();
    tree_map.insert("a".to_string(), 1 as u32);
    tree_map.insert("b".to_string(), 2);
    assert_eq!(Tree(tree_map).to_json(), object);
    let mut hash_map = HashMap::new();
    hash_map.insert("a".to_string(), 1 as u32);
    hash_map.insert("b".to_string(), 2);
    assert_eq!(Hash(hash_map).to_json(), object);
    assert_eq!(Some(15_i32).to_json(), I64(15));
    assert_eq!(Some(15 as u32).to_json(), U64(15));
    assert_eq!(None::<isize>.to_json(), Null);
}
