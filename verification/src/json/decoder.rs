//! Reading typed values out of a tree of values.

use vstd::prelude::*;
use crate::json::builder::parse_document;
use crate::json::encoder::{json_text, EncodingFormat};
use crate::json::error::{DecoderError, DecoderErrorView};
use crate::json::float::{Float, FloatView};
use crate::json::key::str_eq;
use crate::json::text::{chars_of, decimal, is_digit, signed_decimal};
use crate::json::value::{
    has_key, items_view, lemma_entries_view, lemma_items_view, lookup, without_key, Json,
    JsonView, Object,
};

verus! {

pub type DecodeResult<T> = Result<T, DecoderError>;

/// The error that tells that a value of the kind `kind` was expected where
/// `found` stands, which is shown as compact text.
pub open spec fn expected(kind: Seq<char>, found: JsonView) -> DecoderErrorView {
    DecoderErrorView::ExpectedError(kind, json_text(found, EncodingFormat::Compact))
}

/// What a read returns, with the error as its view.
pub open spec fn outcome<T>(r: DecodeResult<T>) -> Result<T, DecoderErrorView> {
    match r {
        Ok(v) => Ok(v),
        Err(e) => Err(e@),
    }
}

/// What the read of a string returns, as views.
pub open spec fn text_outcome(r: DecodeResult<String>) -> Result<Seq<char>, DecoderErrorView> {
    match r {
        Ok(v) => Ok(v@),
        Err(e) => Err(e@),
    }
}

/// What the read of a floating-point number returns, as views.
pub open spec fn float_outcome(r: DecodeResult<Float>) -> Result<FloatView, DecoderErrorView> {
    match r {
        Ok(v) => Ok(v@),
        Err(e) => Err(e@),
    }
}

/// The number that a sequence of decimal digits denotes.
pub open spec fn digits_value(digits: Seq<char>) -> nat
    decreases digits.len(),
{
    if digits.len() == 0 {
        0
    } else {
        digits_value(digits.drop_last()) * 10 + (digits.last() as u32 - '0' as u32) as nat
    }
}

/// Whether the text is one or more decimal digits.
pub open spec fn all_digits(digits: Seq<char>) -> bool {
    digits.len() > 0 && forall|i: int| 0 <= i < digits.len() ==> is_digit(#[trigger] digits[i])
}

/// The integer that a text denotes: digits after a plus sign, after a minus
/// sign where `signed` allows one, or after no sign at all.
pub open spec fn integer_text(s: Seq<char>, signed: bool) -> Option<int> {
    if s.len() > 0 && s[0] == '+' {
        if all_digits(s.drop_first()) {
            Some(digits_value(s.drop_first()) as int)
        } else {
            None
        }
    } else if signed && s.len() > 0 && s[0] == '-' {
        if all_digits(s.drop_first()) {
            Some(-(digits_value(s.drop_first()) as int))
        } else {
            None
        }
    } else if all_digits(s) {
        Some(digits_value(s) as int)
    } else {
        None
    }
}

/// The integer between `min` and `max` that a text denotes.
pub open spec fn integer_in_range(s: Seq<char>, min: int, max: int) -> Option<int> {
    match integer_text(s, min < 0) {
        Some(n) => if min <= n <= max {
            Some(n)
        } else {
            None
        },
        None => None,
    }
}

/// More digits make no smaller number.
proof fn lemma_digits_value_grows(digits: Seq<char>, n: int)
    requires
        0 <= n <= digits.len(),
    ensures
        digits_value(digits.take(n)) <= digits_value(digits),
    decreases digits.len() - n,
{
    if n < digits.len() {
        lemma_digits_value_grows(digits, n + 1);
        assert(digits.take(n + 1).drop_last() =~= digits.take(n));
    } else {
        assert(digits.take(n) =~= digits);
    }
}

/// Reads the integer between `min` and `max` that the text `s` denotes.
pub fn integer_from_text(s: &str, min: i128, max: i128) -> (r: Option<i128>)
    requires
        -0x1_0000_0000_0000_0000 <= min <= 0 <= max <= 0x1_0000_0000_0000_0000,
    ensures
        r is Some == integer_in_range(s@, min as int, max as int) is Some,
        r is Some ==> integer_in_range(s@, min as int, max as int) == Some(r->0 as int),
{
    let text = chars_of(s);
    let n = text.len();
    if n == 0 {
        return None;
    }
    let negative = min < 0 && text[0] == '-';
    let start: usize = if text[0] == '+' || negative {
        1
    } else {
        0
    };
    let ghost digits = text@.skip(start as int);
    proof {
        if start == 1 {
            assert(digits =~= text@.drop_first());
        } else {
            assert(digits =~= text@);
        }
    }
    assert(integer_text(s@, min < 0) == (if all_digits(digits) {
        Some(if negative {
            -(digits_value(digits) as int)
        } else {
            digits_value(digits) as int
        })
    } else {
        None::<int>
    }));
    if start == n {
        return None;
    }
    let mut accum: i128 = 0;
    let mut i: usize = start;
    while i < n
        invariant
            start <= i <= n,
            n == text@.len(),
            digits == text@.skip(start as int),
            forall|j: int| 0 <= j < i - start ==> is_digit(#[trigger] digits[j]),
            accum == digits_value(digits.take(i - start)),
            0 <= accum <= 0x1_0000_0000_0000_0000,
            digits.len() == n - start,
            integer_text(s@, min < 0) == (if all_digits(digits) {
                Some(if negative {
            -(digits_value(digits) as int)
        } else {
            digits_value(digits) as int
        })
            } else {
                None::<int>
            }),
            -0x1_0000_0000_0000_0000 <= min <= 0 <= max <= 0x1_0000_0000_0000_0000,
        decreases n - i,
    {
        let c = text[i];
        if !('0' <= c && c <= '9') {
            assert(!is_digit(digits[i - start]));
            return None;
        }
        proof {
            assert(digits.take(i - start + 1).drop_last() =~= digits.take(i - start));
            assert(digits.take(i - start + 1).last() == c);
        }
        accum = accum * 10 + ((c as u32 - '0' as u32) as i128);
        assert(accum == digits_value(digits.take(i - start + 1)));
        if accum > 0x1_0000_0000_0000_0000 {
            // The digits after this one do not matter: the number is out of
            // range whatever they are, and no number if one is no digit.
            proof {
                lemma_digits_value_grows(digits, i - start + 1);
                assert(digits_value(digits) > 0x1_0000_0000_0000_0000);
            }
            return None;
        }
        i += 1;
    }
    proof {
        assert(digits.take(n - start) =~= digits);
        assert(all_digits(digits));
    }
    let value = if negative {
        -accum
    } else {
        accum
    };
    if min <= value && value <= max {
        Some(value)
    } else {
        None
    }
}

/// The integer between `min` and `max` that the value `v` is read as, or
/// the error that tells why it is none: a signed or unsigned number in that
/// range, or a string that denotes one.
pub open spec fn integer_of(v: JsonView, min: int, max: int) -> Result<int, DecoderErrorView> {
    match v {
        JsonView::I64(i) => if min <= i <= max {
            Ok(i as int)
        } else {
            Err(DecoderErrorView::ExpectedError("Number"@, signed_decimal(i as int)))
        },
        JsonView::U64(u) => if u <= max {
            Ok(u as int)
        } else {
            Err(DecoderErrorView::ExpectedError("Number"@, decimal(u as nat)))
        },
        JsonView::F64(f) => Err(DecoderErrorView::ExpectedError("Integer"@, f.text())),
        JsonView::String(s) => match integer_in_range(s, min, max) {
            Some(n) => Ok(n),
            None => Err(DecoderErrorView::ExpectedError("Number"@, s)),
        },
        other => Err(expected("Number"@, other)),
    }
}

/// The floating-point number that the value `v` is read as, or the error
/// that tells why it is none: a number of any kind, a string that denotes
/// one, or `null`, which is read as no number.
pub open spec fn float_of(v: JsonView) -> Result<FloatView, DecoderErrorView> {
    match v {
        JsonView::I64(n) => Ok(Float::from_i64_view(n)),
        JsonView::U64(n) => Ok(Float::from_u64_view(n)),
        JsonView::F64(f) => Ok(f),
        JsonView::String(s) => match number_text(s) {
            Some(f) => Ok(f),
            None => Err(DecoderErrorView::ExpectedError("Number"@, s)),
        },
        JsonView::Null => Ok(FloatView::Nan),
        other => Err(expected("Number"@, other)),
    }
}

/// The floating-point number that a text denotes, where the text is a JSON
/// number.
pub open spec fn number_text(s: Seq<char>) -> Option<FloatView> {
    match parse_document(s) {
        Ok(JsonView::I64(n)) => Some(Float::from_i64_view(n)),
        Ok(JsonView::U64(n)) => Some(Float::from_u64_view(n)),
        Ok(JsonView::F64(f)) => Some(f),
        _ => None,
    }
}

/// The name of the variant that the value `v` stands for, and its fields:
/// a string is a variant without fields; an object gives the name under
/// `variant` and the fields, an array, under `fields`.
#[verifier::opaque]
pub open spec fn variant_of(v: JsonView) -> Result<(Seq<char>, Seq<JsonView>), DecoderErrorView> {
    match v {
        JsonView::String(s) => Ok((s, Seq::empty())),
        JsonView::Object(entries) => match lookup(entries, "variant"@) {
            Some(JsonView::String(s)) => match lookup(
                without_key(entries, "variant"@),
                "fields"@,
            ) {
                Some(JsonView::Array(l)) => Ok((s, l)),
                Some(val) => Err(expected("Array"@, val)),
                None => Err(DecoderErrorView::MissingFieldError("fields"@)),
            },
            Some(val) => Err(expected("String"@, val)),
            None => Err(DecoderErrorView::MissingFieldError("variant"@)),
        },
        other => Err(expected("String or Object"@, other)),
    }
}

/// The views of a slice of names.
pub open spec fn names_view(names: Seq<&str>) -> Seq<Seq<char>> {
    Seq::new(names.len(), |i: int| names[i]@)
}

/// The first place at which `name` stands among `names`.
pub open spec fn position_of(names: Seq<Seq<char>>, name: Seq<char>) -> Option<int> {
    if exists|i: int| 0 <= i < names.len() && names[i] == name {
        Some(
            choose|i: int|
                0 <= i < names.len() && names[i] == name && forall|j: int|
                    0 <= j < i ==> names[j] != name,
        )
    } else {
        None
    }
}

/// The entries of an object as they are handed to the reader of a map: for
/// each of the first `n`, in the order of the keys, the value and then the
/// key, a string.
pub open spec fn map_stack(entries: Seq<(Seq<char>, JsonView)>, n: int) -> Seq<JsonView>
    decreases n,
{
    if n <= 0 || n > entries.len() {
        Seq::empty()
    } else {
        map_stack(entries, n - 1).push(entries[n - 1].1).push(JsonView::String(entries[n - 1].0))
    }
}

/// A structure to decode JSON to values in rust.
pub struct Decoder {
    stack: Vec<Json>,
}

impl View for Decoder {
    type V = Seq<JsonView>;

    /// The values that are still to be read, the next one last.
    closed spec fn view(&self) -> Seq<JsonView> {
        items_view(self.stack@)
    }
}

impl Decoder {
    /// Creates a new decoder instance for decoding the specified JSON value.
    pub fn new(json: Json) -> (r: Decoder)
        ensures
            r@ == seq![json@],
    {
        let mut stack: Vec<Json> = Vec::new();
        stack.push(json);
        proof {
            lemma_items_view(stack@);
            assert(items_view(stack@) =~= seq![json@]);
        }
        Decoder { stack }
    }

    /// The number of values that are still to be read.
    pub fn remaining(&self) -> (r: usize)
        ensures
            r == self@.len(),
    {
        proof {
            lemma_items_view(self.stack@);
        }
        self.stack.len()
    }

    fn pop(&mut self) -> (r: DecodeResult<Json>)
        ensures
            old(self)@.len() == 0 ==> r is Err && r->Err_0@ == DecoderErrorView::EOF && final(self)@ == old(self)@,
            old(self)@.len() > 0 ==> r is Ok && r->Ok_0@ == old(self)@.last() && final(self)@
                == old(self)@.drop_last(),
    {
        proof {
            lemma_items_view(self.stack@);
        }
        match self.stack.pop() {
            Some(s) => {
                proof {
                    lemma_items_view(self.stack@);
                    assert(items_view(self.stack@) =~= old(self)@.drop_last());
                }
                Ok(s)
            },
            None => Err(DecoderError::EOF),
        }
    }

    fn push(&mut self, v: Json)
        ensures
            final(self)@ == old(self)@.push(v@),
    {
        proof {
            lemma_items_view(self.stack@);
        }
        self.stack.push(v);
        proof {
            lemma_items_view(self.stack@);
            assert(items_view(self.stack@) =~= old(self)@.push(v@));
        }
    }

    // Pushes the values of `items` so that the first is read next.
    fn push_reversed(&mut self, items: Vec<Json>)
        ensures
            final(self)@ == old(self)@ + items_view(items@).reverse(),
    {
        let mut items = items;
        let ghost all = items_view(items@);
        proof {
            lemma_items_view(items@);
        }
        while items.len() > 0
            invariant
                items@.len() <= all.len(),
                items_view(items@) == all.take(items@.len() as int),
                self@ =~= old(self)@ + all.skip(items@.len() as int).reverse(),
            decreases items@.len(),
        {
            proof {
                lemma_items_view(items@);
            }
            let ghost before = items@;
            match items.pop() {
                None => {},
                Some(v) => {
                    proof {
                        lemma_items_view(items@);
                        assert(items_view(before)[before.len() - 1] == before[before.len() - 1]@);
                        assert(v@ == all[items@.len() as int]);
                        assert(items_view(items@) =~= all.take(items@.len() as int));
                        assert(all.skip(items@.len() as int).reverse() =~= all.skip(
                            before.len() as int,
                        ).reverse().push(v@));
                    }
                    self.push(v);
                },
            }
        }
        proof {
            assert(all.skip(0) =~= all);
        }
    }

    /// Reads the next value as it is.
    pub fn read_json(&mut self) -> (r: DecodeResult<Json>)
        ensures
            old(self)@.len() == 0 ==> r is Err && r->Err_0@ == DecoderErrorView::EOF && final(self)@
                == old(self)@,
            old(self)@.len() > 0 ==> r is Ok && r->Ok_0@ == old(self)@.last() && final(self)@
                == old(self)@.drop_last(),
    {
        self.pop()
    }

    /// Puts a value back: it is the next to be read.
    pub fn unread(&mut self, v: Json)
        ensures
            final(self)@ == old(self)@.push(v@),
    {
        self.push(v);
    }

    /// Takes the next value, an array, apart: its elements are to be read
    /// next, the first one first. Returns their number.
    pub fn begin_seq(&mut self) -> (r: DecodeResult<usize>)
        ensures
            old(self)@.len() == 0 ==> r is Err && r->Err_0@ == DecoderErrorView::EOF && final(self)@
                == old(self)@,
            old(self)@.len() > 0 ==> match old(self)@.last() {
                JsonView::Array(items) => r is Ok && r->Ok_0 == items.len() && final(self)@
                    == old(self)@.drop_last() + items.reverse(),
                other => r is Err && r->Err_0@ == expected("Array"@, other) && final(self)@
                    == old(self)@.drop_last(),
            },
    {
        let array = match self.pop() {
            Err(e) => {
                return Err(e);
            },
            Ok(Json::Array(array)) => array,
            Ok(other) => {
                return Err(DecoderError::ExpectedError("Array".to_owned(), other.to_string()));
            },
        };
        let len = array.len();
        proof {
            lemma_items_view(array@);
        }
        self.push_reversed(array);
        Ok(len)
    }

    /// Takes the next value, an array of `tuple_len` elements, apart: its
    /// elements are to be read next, the first one first.
    pub fn begin_tuple(&mut self, tuple_len: usize) -> (r: DecodeResult<()>)
        ensures
            old(self)@.len() == 0 ==> r is Err && r->Err_0@ == DecoderErrorView::EOF && final(self)@
                == old(self)@,
            old(self)@.len() > 0 ==> match old(self)@.last() {
                JsonView::Array(items) => final(self)@ == old(self)@.drop_last() + items.reverse()
                    && if items.len() == tuple_len {
                    r is Ok
                } else {
                    r is Err && r->Err_0@ == DecoderErrorView::ExpectedError(
                        "Tuple"@ + decimal(tuple_len as nat),
                        "Tuple"@ + decimal(items.len()),
                    )
                },
                other => r is Err && r->Err_0@ == expected("Array"@, other) && final(self)@
                    == old(self)@.drop_last(),
            },
    {
        let len = match self.begin_seq() {
            Ok(len) => len,
            Err(e) => {
                return Err(e);
            },
        };
        if len == tuple_len {
            Ok(())
        } else {
            Err(DecoderError::ExpectedError(tuple_name(tuple_len), tuple_name(len)))
        }
    }

    /// Reads `null`.
    pub fn read_nil(&mut self) -> (r: DecodeResult<()>)
        ensures
            old(self)@.len() == 0 ==> outcome(r) == Err::<(), DecoderErrorView>(
                DecoderErrorView::EOF,
            ) && final(self)@ == old(self)@,
            old(self)@.len() > 0 ==> final(self)@ == old(self)@.drop_last() && outcome(r) == (
            if old(self)@.last() is Null {
                Ok::<(), DecoderErrorView>(())
            } else {
                Err::<(), DecoderErrorView>(expected("Null"@, old(self)@.last()))
            }),
    {
        match self.pop() {
            Err(e) => Err(e),
            Ok(Json::Null) => Ok(()),
            Ok(other) => Err(DecoderError::ExpectedError("Null".to_owned(), other.to_string())),
        }
    }

    // Reads an integer between `min` and `max`.
    fn read_integer(&mut self, min: i128, max: i128) -> (r: DecodeResult<i128>)
        requires
            -0x8000_0000_0000_0000 <= min <= 0 <= max <= 0xffff_ffff_ffff_ffff,
        ensures
            old(self)@.len() == 0 ==> r is Err && r->Err_0@ == DecoderErrorView::EOF && final(self)@ == old(self)@,
            old(self)@.len() > 0 ==> final(self)@ == old(self)@.drop_last() && match r {
                Ok(n) => integer_of(old(self)@.last(), min as int, max as int) == Ok::<
                    int,
                    DecoderErrorView,
                >(n as int),
                Err(e) => integer_of(old(self)@.last(), min as int, max as int) == Err::<
                    int,
                    DecoderErrorView,
                >(e@),
            },
    {
        let value = match self.pop() {
            Err(e) => {
                return Err(e);
            },
            Ok(value) => value,
        };
        match value {
            Json::I64(i) => {
                if min <= i as i128 && i as i128 <= max {
                    Ok(i as i128)
                } else {
                    let mut text: Vec<char> = Vec::new();
                    crate::json::text::push_signed_decimal(&mut text, i);
                    assert(text@ =~= signed_decimal(i as int));
                    Err(
                        DecoderError::ExpectedError(
                            "Number".to_owned(),
                            crate::json::text::string_of(&text),
                        ),
                    )
                }
            },
            Json::U64(u) => {
                if u as i128 <= max {
                    Ok(u as i128)
                } else {
                    let mut text: Vec<char> = Vec::new();
                    crate::json::text::push_decimal(&mut text, u);
                    assert(text@ =~= decimal(u as nat));
                    Err(
                        DecoderError::ExpectedError(
                            "Number".to_owned(),
                            crate::json::text::string_of(&text),
                        ),
                    )
                }
            },
            Json::F64(f) => Err(
                DecoderError::ExpectedError(
                    "Integer".to_owned(),
                    crate::json::encoder::fmt_number_or_null(&f),
                ),
            ),
            // A type with numeric keys has a string here: the keys of an
            // object are strings.
            Json::String(s) => match integer_from_text(s.as_str(), min, max) {
                Some(n) => Ok(n),
                None => Err(DecoderError::ExpectedError("Number".to_owned(), s)),
            },
            value => Err(DecoderError::ExpectedError("Number".to_owned(), value.to_string())),
        }
    }

    /// Reads a number that fits `usize`.
    pub fn read_usize(&mut self) -> (r: DecodeResult<usize>)
        ensures
            old(self)@.len() == 0 ==> r is Err && r->Err_0@ == DecoderErrorView::EOF && final(self)@
                == old(self)@,
            old(self)@.len() > 0 ==> final(self)@ == old(self)@.drop_last() && match r {
                Ok(n) => integer_of(old(self)@.last(), usize::MIN as int, usize::MAX as int)
                    == Ok::<int, DecoderErrorView>(n as int),
                Err(e) => integer_of(old(self)@.last(), usize::MIN as int, usize::MAX as int)
                    == Err::<int, DecoderErrorView>(e@),
            },
    {
        match self.read_integer(usize::MIN as i128, usize::MAX as i128) {
            Ok(n) => Ok(n as usize),
            Err(e) => Err(e),
        }
    }

    /// Reads a number that fits `u8`.
    pub fn read_u8(&mut self) -> (r: DecodeResult<u8>)
        ensures
            old(self)@.len() == 0 ==> r is Err && r->Err_0@ == DecoderErrorView::EOF && final(self)@
                == old(self)@,
            old(self)@.len() > 0 ==> final(self)@ == old(self)@.drop_last() && match r {
                Ok(n) => integer_of(old(self)@.last(), u8::MIN as int, u8::MAX as int)
                    == Ok::<int, DecoderErrorView>(n as int),
                Err(e) => integer_of(old(self)@.last(), u8::MIN as int, u8::MAX as int)
                    == Err::<int, DecoderErrorView>(e@),
            },
    {
        match self.read_integer(u8::MIN as i128, u8::MAX as i128) {
            Ok(n) => Ok(n as u8),
            Err(e) => Err(e),
        }
    }

    /// Reads a number that fits `u16`.
    pub fn read_u16(&mut self) -> (r: DecodeResult<u16>)
        ensures
            old(self)@.len() == 0 ==> r is Err && r->Err_0@ == DecoderErrorView::EOF && final(self)@
                == old(self)@,
            old(self)@.len() > 0 ==> final(self)@ == old(self)@.drop_last() && match r {
                Ok(n) => integer_of(old(self)@.last(), u16::MIN as int, u16::MAX as int)
                    == Ok::<int, DecoderErrorView>(n as int),
                Err(e) => integer_of(old(self)@.last(), u16::MIN as int, u16::MAX as int)
                    == Err::<int, DecoderErrorView>(e@),
            },
    {
        match self.read_integer(u16::MIN as i128, u16::MAX as i128) {
            Ok(n) => Ok(n as u16),
            Err(e) => Err(e),
        }
    }

    /// Reads a number that fits `u32`.
    pub fn read_u32(&mut self) -> (r: DecodeResult<u32>)
        ensures
            old(self)@.len() == 0 ==> r is Err && r->Err_0@ == DecoderErrorView::EOF && final(self)@
                == old(self)@,
            old(self)@.len() > 0 ==> final(self)@ == old(self)@.drop_last() && match r {
                Ok(n) => integer_of(old(self)@.last(), u32::MIN as int, u32::MAX as int)
                    == Ok::<int, DecoderErrorView>(n as int),
                Err(e) => integer_of(old(self)@.last(), u32::MIN as int, u32::MAX as int)
                    == Err::<int, DecoderErrorView>(e@),
            },
    {
        match self.read_integer(u32::MIN as i128, u32::MAX as i128) {
            Ok(n) => Ok(n as u32),
            Err(e) => Err(e),
        }
    }

    /// Reads a number that fits `u64`.
    pub fn read_u64(&mut self) -> (r: DecodeResult<u64>)
        ensures
            old(self)@.len() == 0 ==> r is Err && r->Err_0@ == DecoderErrorView::EOF && final(self)@
                == old(self)@,
            old(self)@.len() > 0 ==> final(self)@ == old(self)@.drop_last() && match r {
                Ok(n) => integer_of(old(self)@.last(), u64::MIN as int, u64::MAX as int)
                    == Ok::<int, DecoderErrorView>(n as int),
                Err(e) => integer_of(old(self)@.last(), u64::MIN as int, u64::MAX as int)
                    == Err::<int, DecoderErrorView>(e@),
            },
    {
        match self.read_integer(u64::MIN as i128, u64::MAX as i128) {
            Ok(n) => Ok(n as u64),
            Err(e) => Err(e),
        }
    }

    /// Reads a number that fits `isize`.
    pub fn read_isize(&mut self) -> (r: DecodeResult<isize>)
        ensures
            old(self)@.len() == 0 ==> r is Err && r->Err_0@ == DecoderErrorView::EOF && final(self)@
                == old(self)@,
            old(self)@.len() > 0 ==> final(self)@ == old(self)@.drop_last() && match r {
                Ok(n) => integer_of(old(self)@.last(), isize::MIN as int, isize::MAX as int)
                    == Ok::<int, DecoderErrorView>(n as int),
                Err(e) => integer_of(old(self)@.last(), isize::MIN as int, isize::MAX as int)
                    == Err::<int, DecoderErrorView>(e@),
            },
    {
        match self.read_integer(isize::MIN as i128, isize::MAX as i128) {
            Ok(n) => Ok(n as isize),
            Err(e) => Err(e),
        }
    }

    /// Reads a number that fits `i8`.
    pub fn read_i8(&mut self) -> (r: DecodeResult<i8>)
        ensures
            old(self)@.len() == 0 ==> r is Err && r->Err_0@ == DecoderErrorView::EOF && final(self)@
                == old(self)@,
            old(self)@.len() > 0 ==> final(self)@ == old(self)@.drop_last() && match r {
                Ok(n) => integer_of(old(self)@.last(), i8::MIN as int, i8::MAX as int)
                    == Ok::<int, DecoderErrorView>(n as int),
                Err(e) => integer_of(old(self)@.last(), i8::MIN as int, i8::MAX as int)
                    == Err::<int, DecoderErrorView>(e@),
            },
    {
        match self.read_integer(i8::MIN as i128, i8::MAX as i128) {
            Ok(n) => Ok(n as i8),
            Err(e) => Err(e),
        }
    }

    /// Reads a number that fits `i16`.
    pub fn read_i16(&mut self) -> (r: DecodeResult<i16>)
        ensures
            old(self)@.len() == 0 ==> r is Err && r->Err_0@ == DecoderErrorView::EOF && final(self)@
                == old(self)@,
            old(self)@.len() > 0 ==> final(self)@ == old(self)@.drop_last() && match r {
                Ok(n) => integer_of(old(self)@.last(), i16::MIN as int, i16::MAX as int)
                    == Ok::<int, DecoderErrorView>(n as int),
                Err(e) => integer_of(old(self)@.last(), i16::MIN as int, i16::MAX as int)
                    == Err::<int, DecoderErrorView>(e@),
            },
    {
        match self.read_integer(i16::MIN as i128, i16::MAX as i128) {
            Ok(n) => Ok(n as i16),
            Err(e) => Err(e),
        }
    }

    /// Reads a number that fits `i32`.
    pub fn read_i32(&mut self) -> (r: DecodeResult<i32>)
        ensures
            old(self)@.len() == 0 ==> r is Err && r->Err_0@ == DecoderErrorView::EOF && final(self)@
                == old(self)@,
            old(self)@.len() > 0 ==> final(self)@ == old(self)@.drop_last() && match r {
                Ok(n) => integer_of(old(self)@.last(), i32::MIN as int, i32::MAX as int)
                    == Ok::<int, DecoderErrorView>(n as int),
                Err(e) => integer_of(old(self)@.last(), i32::MIN as int, i32::MAX as int)
                    == Err::<int, DecoderErrorView>(e@),
            },
    {
        match self.read_integer(i32::MIN as i128, i32::MAX as i128) {
            Ok(n) => Ok(n as i32),
            Err(e) => Err(e),
        }
    }

    /// Reads a number that fits `i64`.
    pub fn read_i64(&mut self) -> (r: DecodeResult<i64>)
        ensures
            old(self)@.len() == 0 ==> r is Err && r->Err_0@ == DecoderErrorView::EOF && final(self)@
                == old(self)@,
            old(self)@.len() > 0 ==> final(self)@ == old(self)@.drop_last() && match r {
                Ok(n) => integer_of(old(self)@.last(), i64::MIN as int, i64::MAX as int)
                    == Ok::<int, DecoderErrorView>(n as int),
                Err(e) => integer_of(old(self)@.last(), i64::MIN as int, i64::MAX as int)
                    == Err::<int, DecoderErrorView>(e@),
            },
    {
        match self.read_integer(i64::MIN as i128, i64::MAX as i128) {
            Ok(n) => Ok(n as i64),
            Err(e) => Err(e),
        }
    }

    /// Reads a floating-point number.
    pub fn read_f64(&mut self) -> (r: DecodeResult<Float>)
        ensures
            old(self)@.len() == 0 ==> float_outcome(r) == Err::<FloatView, DecoderErrorView>(
                DecoderErrorView::EOF,
            ) && final(self)@ == old(self)@,
            old(self)@.len() > 0 ==> final(self)@ == old(self)@.drop_last() && float_outcome(r)
                == float_of(old(self)@.last()),
    {
        let value = match self.pop() {
            Err(e) => {
                return Err(e);
            },
            Ok(value) => value,
        };
        match value {
            Json::I64(f) => Ok(Float::from_i64(f)),
            Json::U64(f) => Ok(Float::from_u64(f)),
            Json::F64(f) => Ok(f),
            Json::String(s) => {
                // A type with numeric keys has a string here: the keys of
                // an object are strings.
                match Json::from_str(s.as_str()) {
                    Ok(Json::I64(n)) => Ok(Float::from_i64(n)),
                    Ok(Json::U64(n)) => Ok(Float::from_u64(n)),
                    Ok(Json::F64(f)) => Ok(f),
                    _ => Err(DecoderError::ExpectedError("Number".to_owned(), s)),
                }
            },
            Json::Null => Ok(Float::Nan),
            value => Err(DecoderError::ExpectedError("Number".to_owned(), value.to_string())),
        }
    }

    /// Reads `true` or `false`.
    pub fn read_bool(&mut self) -> (r: DecodeResult<bool>)
        ensures
            old(self)@.len() == 0 ==> outcome(r) == Err::<bool, DecoderErrorView>(
                DecoderErrorView::EOF,
            ) && final(self)@ == old(self)@,
            old(self)@.len() > 0 ==> final(self)@ == old(self)@.drop_last() && outcome(r) == (
            match old(self)@.last() {
                JsonView::Boolean(b) => Ok::<bool, DecoderErrorView>(b),
                other => Err::<bool, DecoderErrorView>(expected("Boolean"@, other)),
            }),
    {
        match self.pop() {
            Err(e) => Err(e),
            Ok(Json::Boolean(b)) => Ok(b),
            Ok(other) => Err(DecoderError::ExpectedError("Boolean".to_owned(), other.to_string())),
        }
    }

    /// Reads a string of exactly one character.
    pub fn read_char(&mut self) -> (r: DecodeResult<char>)
        ensures
            old(self)@.len() == 0 ==> outcome(r) == Err::<char, DecoderErrorView>(
                DecoderErrorView::EOF,
            ) && final(self)@ == old(self)@,
            old(self)@.len() > 0 ==> final(self)@ == old(self)@.drop_last() && outcome(r) == (
            match old(self)@.last() {
                JsonView::String(s) => if s.len() == 1 {
                    Ok::<char, DecoderErrorView>(s[0])
                } else {
                    Err::<char, DecoderErrorView>(
                        DecoderErrorView::ExpectedError("single character string"@, s),
                    )
                },
                other => Err::<char, DecoderErrorView>(expected("String"@, other)),
            }),
    {
        let s = match self.read_str() {
            Ok(s) => s,
            Err(e) => {
                return Err(e);
            },
        };
        let text = chars_of(s.as_str());
        if text.len() == 1 {
            // exactly one character
            return Ok(text[0]);
        }
        Err(DecoderError::ExpectedError("single character string".to_owned(), s))
    }

    /// Reads a string.
    pub fn read_str(&mut self) -> (r: DecodeResult<String>)
        ensures
            old(self)@.len() == 0 ==> text_outcome(r) == Err::<Seq<char>, DecoderErrorView>(
                DecoderErrorView::EOF,
            ) && final(self)@ == old(self)@,
            old(self)@.len() > 0 ==> final(self)@ == old(self)@.drop_last() && text_outcome(r) == (
            match old(self)@.last() {
                JsonView::String(s) => Ok::<Seq<char>, DecoderErrorView>(s),
                other => Err::<Seq<char>, DecoderErrorView>(expected("String"@, other)),
            }),
    {
        match self.pop() {
            Err(e) => Err(e),
            Ok(Json::String(s)) => Ok(s),
            Ok(other) => Err(DecoderError::ExpectedError("String".to_owned(), other.to_string())),
        }
    }

    /// The error that a type raises while it is decoded.
    pub fn error(&mut self, err: &str) -> (r: DecoderError)
        ensures
            r@ == DecoderErrorView::ApplicationError(err@),
            final(self)@ == old(self)@,
    {
        DecoderError::ApplicationError(err.to_owned())
    }

    /// Reads an enum, which `f` reads as one of its variants.
    pub fn read_enum<T, F>(&mut self, _name: &str, f: F) -> (r: DecodeResult<T>) where
        F: FnOnce(&mut Decoder) -> DecodeResult<T>,

        requires
            forall|d: &mut Decoder| call_requires(f, (d,)),
        ensures
            exists|d: &mut Decoder|
                (*d)@ == old(self)@ && #[trigger] call_ensures(f, (d,), r) && final(self)@ == (
                *final(d))@,
    {
        f(self)
    }

    // Takes the next value as a variant: returns its name, and leaves its
    // fields to be read, the first one first.
    fn take_variant(&mut self) -> (r: DecodeResult<String>)
        ensures
            old(self)@.len() == 0 ==> r is Err && r->Err_0@ == DecoderErrorView::EOF && final(self)@
                == old(self)@,
            old(self)@.len() > 0 ==> match variant_of(old(self)@.last()) {
                Err(e) => r is Err && r->Err_0@ == e && final(self)@ == old(self)@.drop_last(),
                Ok((name, fields)) => r is Ok && r->Ok_0@ == name && final(self)@ == old(self)@.drop_last() + fields.reverse(),
            },
    {
        let value = match self.pop() {
            Err(e) => {
                return Err(e);
            },
            Ok(value) => value,
        };
        match split_variant(value) {
            Err(e) => Err(e),
            Ok((name, fields)) => {
                self.push_reversed(fields);
                Ok(name)
            },
        }
    }

    /// Reads a variant of an enum. The next value is the name of a variant,
    /// a string, or an object with the name under `variant` and the fields,
    /// an array, under `fields`. The fields are handed to `f`, the first to
    /// be read first, together with the place of the name among `names`; a
    /// name that is not among them is an error.
    pub fn read_enum_variant<T, F>(&mut self, names: &[&str], f: F) -> (r: DecodeResult<T>) where
        F: FnOnce(&mut Decoder, usize) -> DecodeResult<T>,

        requires
            forall|d: &mut Decoder, idx: usize| call_requires(f, (d, idx)),
        ensures
            old(self)@.len() == 0 ==> r is Err && r->Err_0@ == DecoderErrorView::EOF && final(self)@
                == old(self)@,
            old(self)@.len() > 0 ==> match variant_of(old(self)@.last()) {
                Err(e) => r is Err && r->Err_0@ == e && final(self)@ == old(self)@.drop_last(),
                Ok((name, fields)) => match position_of(names_view(names@), name) {
                    None => r is Err && r->Err_0@ == DecoderErrorView::UnknownVariantError(name)
                        && final(self)@ == old(self)@.drop_last() + fields.reverse(),
                    Some(idx) => exists|d: &mut Decoder|
                        (*d)@ == old(self)@.drop_last() + fields.reverse()
                            && #[trigger] call_ensures(f, (d, idx as usize), r) && final(self)@
                            == (*final(d))@,
                },
            },
    {
        let name = match self.take_variant() {
            Ok(name) => name,
            Err(e) => {
                return Err(e);
            },
        };
        match position(names, name.as_str()) {
            Some(idx) => {
                proof {
                    let at = position_of(names_view(names@), name@)->0;
                    assert(at as usize == idx);
                }
                f(self, idx)
            },
            None => Err(DecoderError::UnknownVariantError(name)),
        }
    }

    /// Reads one field of a variant, which `f` reads.
    pub fn read_enum_variant_arg<T, F>(&mut self, _idx: usize, f: F) -> (r: DecodeResult<T>) where
        F: FnOnce(&mut Decoder) -> DecodeResult<T>,

        requires
            forall|d: &mut Decoder| call_requires(f, (d,)),
        ensures
            exists|d: &mut Decoder|
                (*d)@ == old(self)@ && #[trigger] call_ensures(f, (d,), r) && final(self)@ == (
                *final(d))@,
    {
        f(self)
    }

    /// Reads a variant with named fields like any other variant.
    pub fn read_enum_struct_variant<T, F>(&mut self, names: &[&str], f: F) -> (r: DecodeResult<
        T,
    >) where F: FnOnce(&mut Decoder, usize) -> DecodeResult<T>
        requires
            forall|d: &mut Decoder, idx: usize| call_requires(f, (d, idx)),
        ensures
            old(self)@.len() == 0 ==> r is Err && r->Err_0@ == DecoderErrorView::EOF && final(self)@
                == old(self)@,
            old(self)@.len() > 0 ==> match variant_of(old(self)@.last()) {
                Err(e) => r is Err && r->Err_0@ == e && final(self)@ == old(self)@.drop_last(),
                Ok((name, fields)) => match position_of(names_view(names@), name) {
                    None => r is Err && r->Err_0@ == DecoderErrorView::UnknownVariantError(name)
                        && final(self)@ == old(self)@.drop_last() + fields.reverse(),
                    Some(idx) => exists|d: &mut Decoder|
                        (*d)@ == old(self)@.drop_last() + fields.reverse()
                            && #[trigger] call_ensures(f, (d, idx as usize), r) && final(self)@
                            == (*final(d))@,
                },
            },
    {
        self.read_enum_variant(names, f)
    }

    /// Reads one named field of a variant, which `f` reads.
    pub fn read_enum_struct_variant_field<T, F>(&mut self, _name: &str, _idx: usize, f: F) -> (r: DecodeResult<T>) where
        F: FnOnce(&mut Decoder) -> DecodeResult<T>,

        requires
            forall|d: &mut Decoder| call_requires(f, (d,)),
        ensures
            exists|d: &mut Decoder|
                (*d)@ == old(self)@ && #[trigger] call_ensures(f, (d,), r) && final(self)@ == (
                *final(d))@,
    {
        f(self)
    }

    /// Reads a struct, whose fields `f` reads one by one with
    /// [`Decoder::read_struct_field`]; what is left of the object after the
    /// last field is dropped.
    pub fn read_struct<T, F>(&mut self, _name: &str, _len: usize, f: F) -> (r: DecodeResult<
        T,
    >) where F: FnOnce(&mut Decoder) -> DecodeResult<T>
        requires
            forall|d: &mut Decoder| call_requires(f, (d,)),
        ensures
            exists|d: &mut Decoder, done: DecodeResult<T>|
                (*d)@ == old(self)@ && #[trigger] call_ensures(f, (d,), done) && (if done is Err {
                    r == done && final(self)@ == (*final(d))@
                } else if (*final(d))@.len() == 0 {
                    r is Err && r->Err_0@ == DecoderErrorView::EOF && final(self)@ == (*final(d))@
                } else {
                    r == done && final(self)@ == (*final(d))@.drop_last()
                }),
    {
        let done = f(self);
        if done.is_err() {
            return done;
        }
        match self.pop() {
            Err(e) => Err(e),
            Ok(_) => done,
        }
    }

    /// Reads the field `name` of a struct, which `f` reads, out of the
    /// object that is the next value; the object is kept, without the
    /// field, for the fields that follow. Where the object has no such
    /// field, `f` reads `null` in its place, and if it cannot, the field is
    /// reported as missing.
    pub fn read_struct_field<T, F>(&mut self, name: &str, _idx: usize, f: F) -> (r: DecodeResult<
        T,
    >) where F: FnOnce(&mut Decoder) -> DecodeResult<T>
        requires
            forall|d: &mut Decoder| call_requires(f, (d,)),
        ensures
            old(self)@.len() == 0 ==> r is Err && r->Err_0@ == DecoderErrorView::EOF && final(self)@
                == old(self)@,
            old(self)@.len() > 0 ==> match old(self)@.last() {
                JsonView::Object(entries) => exists|d: &mut Decoder, done: DecodeResult<T>|
                    (*d)@ == old(self)@.drop_last().push(
                        match lookup(entries, name@) {
                            Some(v) => v,
                            None => JsonView::Null,
                        },
                    ) && #[trigger] call_ensures(f, (d,), done) && (if done is Ok {
                        r == done && final(self)@ == (*final(d))@.push(
                            JsonView::Object(without_key(entries, name@)),
                        )
                    } else if has_key(entries, name@) {
                        r == done && final(self)@ == (*final(d))@
                    } else {
                        r is Err && r->Err_0@ == DecoderErrorView::MissingFieldError(name@)
                            && final(self)@ == (*final(d))@
                    }),
                other => r is Err && r->Err_0@ == expected("Object"@, other) && final(self)@
                    == old(self)@.drop_last(),
            },
    {
        let mut obj = match self.pop() {
            Err(e) => {
                return Err(e);
            },
            Ok(Json::Object(o)) => o,
            Ok(other) => {
                return Err(DecoderError::ExpectedError("Object".to_owned(), other.to_string()));
            },
        };
        let done = match obj.remove(name) {
            None => {
                // Add a Null and try to parse it as an Option<_>
                // to get None as a default value.
                self.push(Json::Null);
                let done = f(self);
                if done.is_err() {
                    return Err(DecoderError::MissingFieldError(name.to_owned()));
                }
                done
            },
            Some(json) => {
                self.push(json);
                let done = f(self);
                if done.is_err() {
                    return done;
                }
                done
            },
        };
        self.push(Json::Object(obj));
        done
    }

    /// Reads a tuple of `tuple_len` elements, which `f` reads one by one:
    /// an array of that length.
    pub fn read_tuple<T, F>(&mut self, tuple_len: usize, f: F) -> (r: DecodeResult<T>) where
        F: FnOnce(&mut Decoder) -> DecodeResult<T>,

        requires
            forall|d: &mut Decoder| call_requires(f, (d,)),
        ensures
            old(self)@.len() == 0 ==> r is Err && r->Err_0@ == DecoderErrorView::EOF && final(self)@
                == old(self)@,
            old(self)@.len() > 0 ==> match old(self)@.last() {
                JsonView::Array(items) => if items.len() == tuple_len {
                    exists|d: &mut Decoder|
                        (*d)@ == old(self)@.drop_last() + items.reverse()
                            && #[trigger] call_ensures(f, (d,), r) && final(self)@ == (*final(d))@
                } else {
                    r is Err && r->Err_0@ == DecoderErrorView::ExpectedError(
                        "Tuple"@ + decimal(tuple_len as nat),
                        "Tuple"@ + decimal(items.len()),
                    ) && final(self)@ == old(self)@.drop_last() + items.reverse()
                },
                other => r is Err && r->Err_0@ == expected("Array"@, other) && final(self)@
                    == old(self)@.drop_last(),
            },
    {
        let array = match self.pop() {
            Err(e) => {
                return Err(e);
            },
            Ok(Json::Array(array)) => array,
            Ok(other) => {
                return Err(DecoderError::ExpectedError("Array".to_owned(), other.to_string()));
            },
        };
        let len = array.len();
        proof {
            lemma_items_view(array@);
        }
        self.push_reversed(array);
        if len == tuple_len {
            f(self)
        } else {
            Err(DecoderError::ExpectedError(tuple_name(tuple_len), tuple_name(len)))
        }
    }

    /// Reads one element of a tuple, which `f` reads.
    pub fn read_tuple_arg<T, F>(&mut self, _idx: usize, f: F) -> (r: DecodeResult<T>) where
        F: FnOnce(&mut Decoder) -> DecodeResult<T>,

        requires
            forall|d: &mut Decoder| call_requires(f, (d,)),
        ensures
            exists|d: &mut Decoder|
                (*d)@ == old(self)@ && #[trigger] call_ensures(f, (d,), r) && final(self)@ == (
                *final(d))@,
    {
        f(self)
    }

    /// Reads a tuple struct of `len` fields as a tuple.
    pub fn read_tuple_struct<T, F>(&mut self, _name: &str, len: usize, f: F) -> (r: DecodeResult<
        T,
    >) where F: FnOnce(&mut Decoder) -> DecodeResult<T>
        requires
            forall|d: &mut Decoder| call_requires(f, (d,)),
        ensures
            old(self)@.len() == 0 ==> r is Err && r->Err_0@ == DecoderErrorView::EOF && final(self)@
                == old(self)@,
            old(self)@.len() > 0 ==> match old(self)@.last() {
                JsonView::Array(items) => if items.len() == len {
                    exists|d: &mut Decoder|
                        (*d)@ == old(self)@.drop_last() + items.reverse()
                            && #[trigger] call_ensures(f, (d,), r) && final(self)@ == (*final(d))@
                } else {
                    r is Err && r->Err_0@ == DecoderErrorView::ExpectedError(
                        "Tuple"@ + decimal(len as nat),
                        "Tuple"@ + decimal(items.len()),
                    ) && final(self)@ == old(self)@.drop_last() + items.reverse()
                },
                other => r is Err && r->Err_0@ == expected("Array"@, other) && final(self)@
                    == old(self)@.drop_last(),
            },
    {
        self.read_tuple(len, f)
    }

    /// Reads one field of a tuple struct, which `f` reads.
    pub fn read_tuple_struct_arg<T, F>(&mut self, _idx: usize, f: F) -> (r: DecodeResult<T>) where
        F: FnOnce(&mut Decoder) -> DecodeResult<T>,

        requires
            forall|d: &mut Decoder| call_requires(f, (d,)),
        ensures
            exists|d: &mut Decoder|
                (*d)@ == old(self)@ && #[trigger] call_ensures(f, (d,), r) && final(self)@ == (
                *final(d))@,
    {
        f(self)
    }

    /// Reads an optional value: `f` is told whether the next value is
    /// there, that is, whether it is anything but `null`, and reads it if
    /// it is.
    pub fn read_option<T, F>(&mut self, f: F) -> (r: DecodeResult<T>) where
        F: FnOnce(&mut Decoder, bool) -> DecodeResult<T>,

        requires
            forall|d: &mut Decoder, b: bool| call_requires(f, (d, b)),
        ensures
            old(self)@.len() == 0 ==> r is Err && r->Err_0@ == DecoderErrorView::EOF && final(self)@
                == old(self)@,
            old(self)@.len() > 0 ==> exists|d: &mut Decoder, some: bool|
                some == !(old(self)@.last() is Null) && (*d)@ == (if some {
                    old(self)@
                } else {
                    old(self)@.drop_last()
                }) && #[trigger] call_ensures(f, (d, some), r) && final(self)@ == (*final(d))@,
    {
        match self.pop() {
            Err(e) => Err(e),
            Ok(Json::Null) => f(self, false),
            Ok(value) => {
                self.push(value);
                proof {
                    assert(old(self)@.drop_last().push(old(self)@.last()) =~= old(self)@);
                }
                f(self, true)
            },
        }
    }

    /// Reads a sequence: the elements of the array that is the next value
    /// are handed to `f`, the first to be read first, with their number.
    pub fn read_seq<T, F>(&mut self, f: F) -> (r: DecodeResult<T>) where
        F: FnOnce(&mut Decoder, usize) -> DecodeResult<T>,

        requires
            forall|d: &mut Decoder, len: usize| call_requires(f, (d, len)),
        ensures
            old(self)@.len() == 0 ==> r is Err && r->Err_0@ == DecoderErrorView::EOF && final(self)@
                == old(self)@,
            old(self)@.len() > 0 ==> match old(self)@.last() {
                JsonView::Array(items) => exists|d: &mut Decoder|
                    (*d)@ == old(self)@.drop_last() + items.reverse() && #[trigger] call_ensures(
                        f,
                        (d, items.len() as usize),
                        r,
                    ) && final(self)@ == (*final(d))@,
                other => r is Err && r->Err_0@ == expected("Array"@, other) && final(self)@
                    == old(self)@.drop_last(),
            },
    {
        let array = match self.pop() {
            Err(e) => {
                return Err(e);
            },
            Ok(Json::Array(array)) => array,
            Ok(other) => {
                return Err(DecoderError::ExpectedError("Array".to_owned(), other.to_string()));
            },
        };
        let len = array.len();
        proof {
            lemma_items_view(array@);
            assert(old(self)@.last()->Array_0.len() as usize == len);
        }
        self.push_reversed(array);
        f(self, len)
    }

    /// Reads one element of a sequence, which `f` reads.
    pub fn read_seq_elt<T, F>(&mut self, _idx: usize, f: F) -> (r: DecodeResult<T>) where
        F: FnOnce(&mut Decoder) -> DecodeResult<T>,

        requires
            forall|d: &mut Decoder| call_requires(f, (d,)),
        ensures
            exists|d: &mut Decoder|
                (*d)@ == old(self)@ && #[trigger] call_ensures(f, (d,), r) && final(self)@ == (
                *final(d))@,
    {
        f(self)
    }

    /// Reads a map: the entries of the object that is the next value are
    /// handed to `f` with their number, in the order of the keys each value
    /// and then its key, a string; so the last key is read first.
    pub fn read_map<T, F>(&mut self, f: F) -> (r: DecodeResult<T>) where
        F: FnOnce(&mut Decoder, usize) -> DecodeResult<T>,

        requires
            forall|d: &mut Decoder, len: usize| call_requires(f, (d, len)),
        ensures
            old(self)@.len() == 0 ==> r is Err && r->Err_0@ == DecoderErrorView::EOF && final(self)@
                == old(self)@,
            old(self)@.len() > 0 ==> match old(self)@.last() {
                JsonView::Object(entries) => exists|d: &mut Decoder|
                    (*d)@ == old(self)@.drop_last() + map_stack(entries, entries.len() as int)
                        && #[trigger] call_ensures(f, (d, entries.len() as usize), r) && final(self)@ == (*final(d))@,
                other => r is Err && r->Err_0@ == expected("Object"@, other) && final(self)@
                    == old(self)@.drop_last(),
            },
    {
        let obj = match self.pop() {
            Err(e) => {
                return Err(e);
            },
            Ok(Json::Object(o)) => o,
            Ok(other) => {
                return Err(DecoderError::ExpectedError("Object".to_owned(), other.to_string()));
            },
        };
        let ghost entries = obj@;
        let len = obj.len();
        proof {
            assert(old(self)@.last()->Object_0.len() as usize == len);
        }
        let raw = obj.into_entries();
        proof {
            lemma_entries_view(raw@);
        }
        let mut pairs = reversed(raw);
        let ghost base = self@;
        proof {
            lemma_entries_view(pairs@);
            assert(base + map_stack(entries, 0) =~= base);
        }
        let mut i: usize = 0;
        while i < len
            invariant
                i <= len,
                len == entries.len(),
                pairs@.len() == len - i,
                forall|j: int|
                    0 <= j < pairs@.len() ==> (#[trigger] pairs@[j]).0@ == entries[len - 1 - j].0
                        && pairs@[j].1@ == entries[len - 1 - j].1,
                self@ == base + map_stack(entries, i as int),
            decreases len - i,
        {
            match pairs.pop() {
                None => {},
                Some((key, value)) => {
                    self.push(value);
                    self.push(Json::String(key));
                    proof {
                        assert(self@ =~= base + map_stack(entries, i + 1));
                    }
                },
            }
            i += 1;
        }
        f(self, len)
    }

    /// Reads the key of one entry of a map, which `f` reads.
    pub fn read_map_elt_key<T, F>(&mut self, _idx: usize, f: F) -> (r: DecodeResult<T>) where
        F: FnOnce(&mut Decoder) -> DecodeResult<T>,

        requires
            forall|d: &mut Decoder| call_requires(f, (d,)),
        ensures
            exists|d: &mut Decoder|
                (*d)@ == old(self)@ && #[trigger] call_ensures(f, (d,), r) && final(self)@ == (
                *final(d))@,
    {
        f(self)
    }

    /// Reads the value of one entry of a map, which `f` reads.
    pub fn read_map_elt_val<T, F>(&mut self, _idx: usize, f: F) -> (r: DecodeResult<T>) where
        F: FnOnce(&mut Decoder) -> DecodeResult<T>,

        requires
            forall|d: &mut Decoder| call_requires(f, (d,)),
        ensures
            exists|d: &mut Decoder|
                (*d)@ == old(self)@ && #[trigger] call_ensures(f, (d,), r) && final(self)@ == (
                *final(d))@,
    {
        f(self)
    }
}

// The name and the fields of the variant that `value` stands for.
#[verifier::rlimit(50)]
fn split_variant(value: Json) -> (r: DecodeResult<(String, Vec<Json>)>)
    ensures
        match variant_of(value@) {
            Err(e) => r is Err && r->Err_0@ == e,
            Ok((name, fields)) => r is Ok && r->Ok_0.0@ == name && items_view(r->Ok_0.1@) == fields,
        },
{
    reveal(variant_of);
    match value {
        Json::String(s) => {
            let fields: Vec<Json> = Vec::new();
            proof {
                lemma_items_view(fields@);
                assert(items_view(fields@) =~= Seq::<JsonView>::empty());
            }
            Ok((s, fields))
        },
        Json::Object(o) => {
            let mut o = o;
            let n = match o.remove("variant") {
                Some(Json::String(s)) => s,
                Some(val) => {
                    return Err(DecoderError::ExpectedError("String".to_owned(), val.to_string()));
                },
                None => {
                    return Err(DecoderError::MissingFieldError("variant".to_owned()));
                },
            };
            match o.remove("fields") {
                Some(Json::Array(l)) => Ok((n, l)),
                Some(val) => Err(DecoderError::ExpectedError("Array".to_owned(), val.to_string())),
                None => Err(DecoderError::MissingFieldError("fields".to_owned())),
            }
        },
        json => Err(
            DecoderError::ExpectedError("String or Object".to_owned(), json.to_string()),
        ),
    }
}

// The first place at which `name` stands among `names`.
fn position(names: &[&str], name: &str) -> (r: Option<usize>)
    ensures
        r is Some == position_of(names_view(names@), name@) is Some,
        r is Some ==> position_of(names_view(names@), name@) == Some(r->0 as int),
{
    let ghost all = names_view(names@);
    let mut idx: usize = 0;
    while idx < names.len()
        invariant
            idx <= names@.len(),
            all == names_view(names@),
            forall|j: int| 0 <= j < idx ==> all[j] != name@,
        decreases names.len() - idx,
    {
        if str_eq(names[idx], name) {
            assert(all[idx as int] == name@);
            return Some(idx);
        }
        idx += 1;
    }
    None
}

// The entries from the last to the first.
fn reversed(entries: Vec<(String, Json)>) -> (r: Vec<(String, Json)>)
    ensures
        r@ == entries@.reverse(),
{
    let mut entries = entries;
    let ghost all = entries@;
    let mut r: Vec<(String, Json)> = Vec::new();
    while entries.len() > 0
        invariant
            entries@.len() <= all.len(),
            entries@ == all.take(entries@.len() as int),
            r@ =~= all.skip(entries@.len() as int).reverse(),
        decreases entries@.len(),
    {
        let ghost before = entries@;
        match entries.pop() {
            None => {},
            Some(pair) => {
                proof {
                    assert(entries@ =~= all.take(entries@.len() as int));
                    assert(all.skip(entries@.len() as int).reverse() =~= all.skip(
                        before.len() as int,
                    ).reverse().push(pair));
                }
                r.push(pair);
            },
        }
    }
    proof {
        assert(all.skip(0) =~= all);
    }
    r
}

// The name of a tuple of `len` elements.
fn tuple_name(len: usize) -> (r: String)
    ensures
        r@ == "Tuple"@ + decimal(len as nat),
{
    let mut text: Vec<char> = Vec::new();
    crate::json::text::push_str(&mut text, "Tuple");
    crate::json::text::push_decimal(&mut text, len as u64);
    crate::json::text::string_of(&text)
}

} // verus!
