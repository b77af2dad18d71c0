//! What a type has to offer to be written and read: it describes itself to
//! an encoder, and takes itself out of a decoder.

use vstd::prelude::*;
use crate::json::decoder::{
    expected, float_of, float_outcome, integer_of, outcome, text_outcome, DecodeResult, Decoder,
};
use crate::json::encoder::{escaped, number_text, EncodeResult, Encoder, EncoderView};
use crate::json::error::{DecoderErrorView, EncoderError};
use crate::json::float::Float;
use crate::json::text::{decimal, signed_decimal};
use crate::json::value::{Json, JsonView};

verus! {

/// A value that can be written by an encoder.
pub trait Encodable {
    /// Whether writing the value can lead from an encoder in the state
    /// `before` to the state `after` with the result `r`. A type that does
    /// not say so allows every outcome.
    open spec fn encodes(&self, before: EncoderView, after: EncoderView, r: EncodeResult<()>) -> bool {
        true
    }

    /// Writes the value.
    fn encode(&self, s: &mut Encoder) -> (r: EncodeResult<()>)
        ensures
            self.encodes(old(s)@, final(s)@, r),
    ;
}

/// A value that can be read out of a decoder.
pub trait Decodable: Sized {
    /// Whether reading a value of this type can lead from the values
    /// `before` to the values `after` with the result `r`. A type that does
    /// not say so allows every outcome.
    open spec fn decoding(before: Seq<JsonView>, after: Seq<JsonView>, r: DecodeResult<Self>) -> bool {
        true
    }

    /// Reads a value.
    fn decode(d: &mut Decoder) -> (r: DecodeResult<Self>)
        ensures
            Self::decoding(old(d)@, final(d)@, r),
    ;
}

/// There is one way to succeed without a value.
pub proof fn lemma_unit_result(r: EncodeResult<()>)
    requires
        r is Ok,
    ensures
        r == Ok::<(), EncoderError>(()),
{
    match r {
        Ok(u) => {
            assert(u == ());
        },
        Err(_) => {},
    }
}

/// What the read of one value leads to: nothing is left to read, which is
/// an error, or the next value is taken and gives the result `read`.
pub open spec fn takes_one<V>(
    before: Seq<JsonView>,
    after: Seq<JsonView>,
    r: Result<V, DecoderErrorView>,
    read: Result<V, DecoderErrorView>,
) -> bool {
    if before.len() == 0 {
        r == Err::<V, DecoderErrorView>(DecoderErrorView::EOF) && after == before
    } else {
        r == read && after == before.drop_last()
    }
}

/// The result of reading an integer, as a mathematical integer.
pub open spec fn int_outcome<T: Integer>(r: DecodeResult<T>) -> Result<int, DecoderErrorView> {
    match r {
        Ok(v) => Ok(v as int),
        Err(e) => Err(e@),
    }
}

impl Encodable for Json {
    open spec fn encodes(&self, before: EncoderView, after: EncoderView, r: EncodeResult<()>) -> bool {
        (after, r) == ({
            before.encode_json(self@)
        })
    }

    fn encode(&self, s: &mut Encoder) -> (r: EncodeResult<()>) {
        s.emit_json(self)
    }
}

impl Decodable for Json {
    open spec fn decoding(before: Seq<JsonView>, after: Seq<JsonView>, r: DecodeResult<Json>) -> bool {
        if before.len() == 0 {
            r is Err && r->Err_0@ == DecoderErrorView::EOF && after == before
        } else {
            r is Ok && r->Ok_0@ == before.last() && after == before.drop_last()
        }
    }

    fn decode(d: &mut Decoder) -> (r: DecodeResult<Json>) {
        d.read_json()
    }
}

impl Encodable for () {
    open spec fn encodes(&self, before: EncoderView, after: EncoderView, r: EncodeResult<()>) -> bool {
        (after, r) == ({
            if before.is_emitting_map_key {
                (before, Err::<(), EncoderError>(EncoderError::BadHashmapKey))
            } else {
                (before.write(seq!['n', 'u', 'l', 'l']), Ok::<(), EncoderError>(()))
            }
        })
    }

    fn encode(&self, s: &mut Encoder) -> (r: EncodeResult<()>) {
        s.emit_nil()
    }
}

impl Decodable for () {
    open spec fn decoding(before: Seq<JsonView>, after: Seq<JsonView>, r: DecodeResult<()>) -> bool {
        takes_one(
            before,
            after,
            outcome(r),
            if before.last() is Null {
                Ok(())
            } else {
                Err(expected("Null"@, before.last()))
            },
        )
    }

    fn decode(d: &mut Decoder) -> (r: DecodeResult<()>) {
        d.read_nil()
    }
}

impl Encodable for bool {
    open spec fn encodes(&self, before: EncoderView, after: EncoderView, r: EncodeResult<()>) -> bool {
        (after, r) == ({
            before.encode_json(JsonView::Boolean(*self))
        })
    }

    fn encode(&self, s: &mut Encoder) -> (r: EncodeResult<()>) {
        s.emit_bool(*self)
    }
}

impl Decodable for bool {
    open spec fn decoding(before: Seq<JsonView>, after: Seq<JsonView>, r: DecodeResult<bool>) -> bool {
        takes_one(
            before,
            after,
            outcome(r),
            match before.last() {
                JsonView::Boolean(b) => Ok(b),
                other => Err(expected("Boolean"@, other)),
            },
        )
    }

    fn decode(d: &mut Decoder) -> (r: DecodeResult<bool>) {
        d.read_bool()
    }
}

impl Encodable for char {
    open spec fn encodes(&self, before: EncoderView, after: EncoderView, r: EncodeResult<()>) -> bool {
        (after, r) == ({
            (before.write(escaped(seq![*self])), Ok::<(), EncoderError>(()))
        })
    }

    fn encode(&self, s: &mut Encoder) -> (r: EncodeResult<()>) {
        s.emit_char(*self)
    }
}

impl Decodable for char {
    open spec fn decoding(before: Seq<JsonView>, after: Seq<JsonView>, r: DecodeResult<char>) -> bool {
        takes_one(
            before,
            after,
            outcome(r),
            match before.last() {
                JsonView::String(s) => if s.len() == 1 {
                    Ok(s[0])
                } else {
                    Err(DecoderErrorView::ExpectedError("single character string"@, s))
                },
                other => Err(expected("String"@, other)),
            },
        )
    }

    fn decode(d: &mut Decoder) -> (r: DecodeResult<char>) {
        d.read_char()
    }
}

impl Encodable for String {
    open spec fn encodes(&self, before: EncoderView, after: EncoderView, r: EncodeResult<()>) -> bool {
        (after, r) == ({
            (before.write(escaped(self@)), Ok::<(), EncoderError>(()))
        })
    }

    fn encode(&self, s: &mut Encoder) -> (r: EncodeResult<()>) {
        s.emit_str(self.as_str())
    }
}

impl Decodable for String {
    open spec fn decoding(before: Seq<JsonView>, after: Seq<JsonView>, r: DecodeResult<String>) -> bool {
        takes_one(
            before,
            after,
            text_outcome(r),
            match before.last() {
                JsonView::String(s) => Ok(s),
                other => Err(expected("String"@, other)),
            },
        )
    }

    fn decode(d: &mut Decoder) -> (r: DecodeResult<String>) {
        d.read_str()
    }
}

impl Encodable for Float {
    open spec fn encodes(&self, before: EncoderView, after: EncoderView, r: EncodeResult<()>) -> bool {
        (after, r) == ({
            (before.write(number_text(self@.text(), before.is_emitting_map_key)), Ok::<(), EncoderError>(()))
        })
    }

    fn encode(&self, s: &mut Encoder) -> (r: EncodeResult<()>) {
        s.emit_f64(self)
    }
}

impl Decodable for Float {
    open spec fn decoding(before: Seq<JsonView>, after: Seq<JsonView>, r: DecodeResult<Float>) -> bool {
        takes_one(before, after, float_outcome(r), float_of(before.last()))
    }

    fn decode(d: &mut Decoder) -> (r: DecodeResult<Float>) {
        d.read_f64()
    }
}

impl Encodable for u8 {
    open spec fn encodes(&self, before: EncoderView, after: EncoderView, r: EncodeResult<()>) -> bool {
        (after, r) == ({
            (before.write(number_text(decimal(*self as nat), before.is_emitting_map_key)), Ok::<(), EncoderError>(()))
        })
    }

    fn encode(&self, s: &mut Encoder) -> (r: EncodeResult<()>) {
        s.emit_u8(*self)
    }
}

impl Decodable for u8 {
    open spec fn decoding(before: Seq<JsonView>, after: Seq<JsonView>, r: DecodeResult<u8>) -> bool {
        takes_one(
            before,
            after,
            int_outcome(r),
            integer_of(before.last(), u8::MIN as int, u8::MAX as int),
        )
    }

    fn decode(d: &mut Decoder) -> (r: DecodeResult<u8>) {
        d.read_u8()
    }
}

impl Encodable for u16 {
    open spec fn encodes(&self, before: EncoderView, after: EncoderView, r: EncodeResult<()>) -> bool {
        (after, r) == ({
            (before.write(number_text(decimal(*self as nat), before.is_emitting_map_key)), Ok::<(), EncoderError>(()))
        })
    }

    fn encode(&self, s: &mut Encoder) -> (r: EncodeResult<()>) {
        s.emit_u16(*self)
    }
}

impl Decodable for u16 {
    open spec fn decoding(before: Seq<JsonView>, after: Seq<JsonView>, r: DecodeResult<u16>) -> bool {
        takes_one(
            before,
            after,
            int_outcome(r),
            integer_of(before.last(), u16::MIN as int, u16::MAX as int),
        )
    }

    fn decode(d: &mut Decoder) -> (r: DecodeResult<u16>) {
        d.read_u16()
    }
}

impl Encodable for u32 {
    open spec fn encodes(&self, before: EncoderView, after: EncoderView, r: EncodeResult<()>) -> bool {
        (after, r) == ({
            (before.write(number_text(decimal(*self as nat), before.is_emitting_map_key)), Ok::<(), EncoderError>(()))
        })
    }

    fn encode(&self, s: &mut Encoder) -> (r: EncodeResult<()>) {
        s.emit_u32(*self)
    }
}

impl Decodable for u32 {
    open spec fn decoding(before: Seq<JsonView>, after: Seq<JsonView>, r: DecodeResult<u32>) -> bool {
        takes_one(
            before,
            after,
            int_outcome(r),
            integer_of(before.last(), u32::MIN as int, u32::MAX as int),
        )
    }

    fn decode(d: &mut Decoder) -> (r: DecodeResult<u32>) {
        d.read_u32()
    }
}

impl Encodable for u64 {
    open spec fn encodes(&self, before: EncoderView, after: EncoderView, r: EncodeResult<()>) -> bool {
        (after, r) == ({
            (before.write(number_text(decimal(*self as nat), before.is_emitting_map_key)), Ok::<(), EncoderError>(()))
        })
    }

    fn encode(&self, s: &mut Encoder) -> (r: EncodeResult<()>) {
        s.emit_u64(*self)
    }
}

impl Decodable for u64 {
    open spec fn decoding(before: Seq<JsonView>, after: Seq<JsonView>, r: DecodeResult<u64>) -> bool {
        takes_one(
            before,
            after,
            int_outcome(r),
            integer_of(before.last(), u64::MIN as int, u64::MAX as int),
        )
    }

    fn decode(d: &mut Decoder) -> (r: DecodeResult<u64>) {
        d.read_u64()
    }
}

impl Encodable for usize {
    open spec fn encodes(&self, before: EncoderView, after: EncoderView, r: EncodeResult<()>) -> bool {
        (after, r) == ({
            (before.write(number_text(decimal(*self as nat), before.is_emitting_map_key)), Ok::<(), EncoderError>(()))
        })
    }

    fn encode(&self, s: &mut Encoder) -> (r: EncodeResult<()>) {
        s.emit_usize(*self)
    }
}

impl Decodable for usize {
    open spec fn decoding(before: Seq<JsonView>, after: Seq<JsonView>, r: DecodeResult<usize>) -> bool {
        takes_one(
            before,
            after,
            int_outcome(r),
            integer_of(before.last(), usize::MIN as int, usize::MAX as int),
        )
    }

    fn decode(d: &mut Decoder) -> (r: DecodeResult<usize>) {
        d.read_usize()
    }
}

impl Encodable for i8 {
    open spec fn encodes(&self, before: EncoderView, after: EncoderView, r: EncodeResult<()>) -> bool {
        (after, r) == ({
            (before.write(number_text(signed_decimal(*self as int), before.is_emitting_map_key)), Ok::<(), EncoderError>(()))
        })
    }

    fn encode(&self, s: &mut Encoder) -> (r: EncodeResult<()>) {
        s.emit_i8(*self)
    }
}

impl Decodable for i8 {
    open spec fn decoding(before: Seq<JsonView>, after: Seq<JsonView>, r: DecodeResult<i8>) -> bool {
        takes_one(
            before,
            after,
            int_outcome(r),
            integer_of(before.last(), i8::MIN as int, i8::MAX as int),
        )
    }

    fn decode(d: &mut Decoder) -> (r: DecodeResult<i8>) {
        d.read_i8()
    }
}

impl Encodable for i16 {
    open spec fn encodes(&self, before: EncoderView, after: EncoderView, r: EncodeResult<()>) -> bool {
        (after, r) == ({
            (before.write(number_text(signed_decimal(*self as int), before.is_emitting_map_key)), Ok::<(), EncoderError>(()))
        })
    }

    fn encode(&self, s: &mut Encoder) -> (r: EncodeResult<()>) {
        s.emit_i16(*self)
    }
}

impl Decodable for i16 {
    open spec fn decoding(before: Seq<JsonView>, after: Seq<JsonView>, r: DecodeResult<i16>) -> bool {
        takes_one(
            before,
            after,
            int_outcome(r),
            integer_of(before.last(), i16::MIN as int, i16::MAX as int),
        )
    }

    fn decode(d: &mut Decoder) -> (r: DecodeResult<i16>) {
        d.read_i16()
    }
}

impl Encodable for i32 {
    open spec fn encodes(&self, before: EncoderView, after: EncoderView, r: EncodeResult<()>) -> bool {
        (after, r) == ({
            (before.write(number_text(signed_decimal(*self as int), before.is_emitting_map_key)), Ok::<(), EncoderError>(()))
        })
    }

    fn encode(&self, s: &mut Encoder) -> (r: EncodeResult<()>) {
        s.emit_i32(*self)
    }
}

impl Decodable for i32 {
    open spec fn decoding(before: Seq<JsonView>, after: Seq<JsonView>, r: DecodeResult<i32>) -> bool {
        takes_one(
            before,
            after,
            int_outcome(r),
            integer_of(before.last(), i32::MIN as int, i32::MAX as int),
        )
    }

    fn decode(d: &mut Decoder) -> (r: DecodeResult<i32>) {
        d.read_i32()
    }
}

impl Encodable for i64 {
    open spec fn encodes(&self, before: EncoderView, after: EncoderView, r: EncodeResult<()>) -> bool {
        (after, r) == ({
            (before.write(number_text(signed_decimal(*self as int), before.is_emitting_map_key)), Ok::<(), EncoderError>(()))
        })
    }

    fn encode(&self, s: &mut Encoder) -> (r: EncodeResult<()>) {
        s.emit_i64(*self)
    }
}

impl Decodable for i64 {
    open spec fn decoding(before: Seq<JsonView>, after: Seq<JsonView>, r: DecodeResult<i64>) -> bool {
        takes_one(
            before,
            after,
            int_outcome(r),
            integer_of(before.last(), i64::MIN as int, i64::MAX as int),
        )
    }

    fn decode(d: &mut Decoder) -> (r: DecodeResult<i64>) {
        d.read_i64()
    }
}

impl Encodable for isize {
    open spec fn encodes(&self, before: EncoderView, after: EncoderView, r: EncodeResult<()>) -> bool {
        (after, r) == ({
            (before.write(number_text(signed_decimal(*self as int), before.is_emitting_map_key)), Ok::<(), EncoderError>(()))
        })
    }

    fn encode(&self, s: &mut Encoder) -> (r: EncodeResult<()>) {
        s.emit_isize(*self)
    }
}

impl Decodable for isize {
    open spec fn decoding(before: Seq<JsonView>, after: Seq<JsonView>, r: DecodeResult<isize>) -> bool {
        takes_one(
            before,
            after,
            int_outcome(r),
            integer_of(before.last(), isize::MIN as int, isize::MAX as int),
        )
    }

    fn decode(d: &mut Decoder) -> (r: DecodeResult<isize>) {
        d.read_isize()
    }
}

impl<T: Encodable> Encodable for Option<T> {
    /// `null` for no value, and a value as it is written anyway; as a key
    /// it is an error.
    open spec fn encodes(&self, before: EncoderView, after: EncoderView, r: EncodeResult<()>) -> bool {
        if before.is_emitting_map_key {
            (after, r) == (before, Err::<(), EncoderError>(EncoderError::BadHashmapKey))
        } else {
            match self {
                None => (after, r) == (
                    before.write(seq!['n', 'u', 'l', 'l']),
                    Ok::<(), EncoderError>(()),
                ),
                Some(v) => v.encodes(before, after, r),
            }
        }
    }

    fn encode(&self, s: &mut Encoder) -> (r: EncodeResult<()>) {
        if s.is_emitting_map_key() {
            return Err(EncoderError::BadHashmapKey);
        }
        match self {
            None => s.emit_option_none(),
            Some(v) => v.encode(s),
        }
    }
}

impl<T: Decodable> Decodable for Option<T> {
    /// `null` is read as no value; anything else is left for `T` to read.
    open spec fn decoding(before: Seq<JsonView>, after: Seq<JsonView>, r: DecodeResult<Option<T>>) -> bool {
        if before.len() == 0 {
            r is Err && r->Err_0@ == DecoderErrorView::EOF && after == before
        } else if before.last() is Null {
            r is Ok && r->Ok_0 is None && after == before.drop_last()
        } else {
            match r {
                Ok(v) => v is Some && T::decoding(before, after, Ok(v->0)),
                Err(e) => T::decoding(before, after, Err(e)),
            }
        }
    }

    fn decode(d: &mut Decoder) -> (r: DecodeResult<Option<T>>) {
        let value = match d.read_json() {
            Err(e) => {
                return Err(e);
            },
            Ok(value) => value,
        };
        match value {
            Json::Null => Ok(None),
            value => {
                d.unread(value);
                proof {
                    assert(d@ =~= old(d)@);
                }
                match T::decode(d) {
                    Ok(v) => Ok(Some(v)),
                    Err(e) => Err(e),
                }
            },
        }
    }
}

/// Whether writing `item` as the element at place `idx` of a sequence can
/// lead from the state `state` to the state `after` with the result `r`:
/// the element is written after its separator; as a key it is an error.
pub open spec fn element_encodes<T: Encodable>(
    item: T,
    state: EncoderView,
    idx: usize,
    after: EncoderView,
    r: EncodeResult<()>,
) -> bool {
    if state.is_emitting_map_key {
        (after, r) == (state, Err::<(), EncoderError>(EncoderError::BadHashmapKey))
    } else {
        item.encodes(state.before_element(idx), after, r)
    }
}

// Writes `item` as the element at place `idx` of a sequence.
fn encode_element<T: Encodable>(item: &T, s: &mut Encoder, idx: usize) -> (r: EncodeResult<()>)
    ensures
        element_encodes(*item, old(s)@, idx, final(s)@, r),
{
    if s.is_emitting_map_key() {
        return Err(EncoderError::BadHashmapKey);
    }
    s.separator(idx);
    item.encode(s)
}

/// Whether writing the first `n` of `items` one by one leads through the
/// states `states`, each with success.
pub open spec fn elements_encoded<T: Encodable>(
    items: Seq<T>,
    states: Seq<EncoderView>,
    n: int,
) -> bool {
    &&& 0 <= n <= items.len()
    &&& states.len() == n + 1
    &&& forall|i: int|
        0 <= i < n ==> element_encodes(
            items[i],
            #[trigger] states[i],
            i as usize,
            states[i + 1],
            Ok(()),
        )
}

impl<T: Encodable> Encodable for Vec<T> {
    /// The elements between square brackets, up to the first that fails;
    /// as a key it is an error.
    open spec fn encodes(&self, before: EncoderView, after: EncoderView, r: EncodeResult<()>) -> bool {
        if before.is_emitting_map_key {
            (after, r) == (before, Err::<(), EncoderError>(EncoderError::BadHashmapKey))
        } else if self@.len() == 0 {
            (after, r) == (before.write(seq!['[', ']']), Ok::<(), EncoderError>(()))
        } else {
            exists|states: Seq<EncoderView>, n: int| #[trigger]
                elements_encoded(self@, states, n) && states[0] == before.open('[') && (if n
                    == self@.len() {
                    (after, r) == (states[n].close(']'), Ok::<(), EncoderError>(()))
                } else {
                    r is Err && element_encodes(self@[n], states[n], n as usize, after, r)
                })
        }
    }

    fn encode(&self, s: &mut Encoder) -> (r: EncodeResult<()>) {
        if s.is_emitting_map_key() {
            return Err(EncoderError::BadHashmapKey);
        }
        if self.len() == 0 {
            s.put('[');
            s.put(']');
            proof {
                assert(s@.output =~= old(s)@.output + seq!['[', ']']);
            }
            return Ok(());
        }
        s.open('[');
        let ghost mut states: Seq<EncoderView> = seq![s@];
        let mut i: usize = 0;
        while i < self.len()
            invariant
                i <= self.len(),
                self@.len() > 0,
                !old(s)@.is_emitting_map_key,
                states[0] == old(s)@.open('['),
                elements_encoded(self@, states, i as int),
                states[i as int] == s@,
            decreases self.len() - i,
        {
            let ghost before = states;
            let done = encode_element(&self[i], s, i);
            if done.is_err() {
                return done;
            }
            proof {
                lemma_unit_result(done);
                states = states.push(s@);
                assert forall|j: int| 0 <= j < i + 1 implies element_encodes(
                    self@[j],
                    #[trigger] states[j],
                    j as usize,
                    states[j + 1],
                    Ok(()),
                ) by {
                    if j < i {
                        assert(states[j] == before[j]);
                        assert(states[j + 1] == before[j + 1]);
                    }
                }
            }
            i += 1;
        }
        s.close(']');
        proof {
            assert(elements_encoded(self@, states, self@.len() as int));
        }
        Ok(())
    }
}

/// Whether reading `items` one by one leads through the states `states`:
/// each item is read in the state that the one before it has left.
pub open spec fn elements_decoding<T: Decodable>(states: Seq<Seq<JsonView>>, items: Seq<T>) -> bool {
    &&& states.len() == items.len() + 1
    &&& forall|i: int|
        0 <= i < items.len() ==> T::decoding(
            #[trigger] states[i],
            states[i + 1],
            Ok(items[i]),
        )
}

impl<T: Decodable> Decodable for Vec<T> {
    /// The next value is an array, and its elements are read one by one,
    /// up to the first that fails.
    open spec fn decoding(before: Seq<JsonView>, after: Seq<JsonView>, r: DecodeResult<Vec<T>>) -> bool {
        if before.len() == 0 {
            r is Err && r->Err_0@ == DecoderErrorView::EOF && after == before
        } else {
            match before.last() {
                JsonView::Array(elements) => {
                    let start = before.drop_last() + elements.reverse();
                    match r {
                        Ok(v) => exists|states: Seq<Seq<JsonView>>|
                            v@.len() == elements.len() && #[trigger] elements_decoding(states, v@)
                                && states[0] == start && states.last() == after,
                        Err(e) => exists|states: Seq<Seq<JsonView>>, read: Seq<T>|
                            read.len() < elements.len() && #[trigger] elements_decoding(
                                states,
                                read,
                            ) && states[0] == start && T::decoding(states.last(), after, Err(e)),
                    }
                },
                other => r is Err && r->Err_0@ == expected("Array"@, other) && after
                    == before.drop_last(),
            }
        }
    }

    fn decode(d: &mut Decoder) -> (r: DecodeResult<Vec<T>>) {
        let len = match d.begin_seq() {
            Ok(len) => len,
            Err(e) => {
                return Err(e);
            },
        };
        let ghost start = d@;
        let ghost elements = old(d)@.last()->Array_0;
        let ghost mut states: Seq<Seq<JsonView>> = seq![start];
        let mut v: Vec<T> = Vec::new();
        let mut i: usize = 0;
        while i < len
            invariant
                i <= len,
                v@.len() == i,
                old(d)@.len() > 0,
                old(d)@.last() == JsonView::Array(elements),
                len == elements.len(),
                start == old(d)@.drop_last() + elements.reverse(),
                elements_decoding(states, v@),
                states[0] == start,
                states.last() == d@,
            decreases len - i,
        {
            let ghost before = states;
            match T::decode(d) {
                Ok(item) => {
                    v.push(item);
                    proof {
                        states = states.push(d@);
                        assert forall|j: int| 0 <= j < v@.len() implies T::decoding(
                            #[trigger] states[j],
                            states[j + 1],
                            Ok(v@[j]),
                        ) by {
                            if j < v@.len() - 1 {
                                assert(states[j] == before[j]);
                                assert(states[j + 1] == before[j + 1]);
                            }
                        }
                    }
                },
                Err(e) => {
                    return Err(e);
                },
            }
            i += 1;
        }
        proof {
            assert(old(d)@.last() is Array);
            assert(old(d)@.last()->Array_0 == elements);
            assert(start == old(d)@.drop_last() + old(d)@.last()->Array_0.reverse());
            assert(exists|st: Seq<Seq<JsonView>>|
                v@.len() == elements.len() && #[trigger] elements_decoding(st, v@) && st[0]
                    == start && st.last() == d@);
            let r: DecodeResult<Vec<T>> = Ok(v);
            assert(r is Ok && r->Ok_0 == v);
            assert(<Vec<T> as Decodable>::decoding(old(d)@, d@, r));
        }
        Ok(v)
    }
}

impl<A: Encodable, B: Encodable> Encodable for (A, B) {
    /// The two elements between square brackets, up to the first that
    /// fails; as a key it is an error.
    open spec fn encodes(&self, before: EncoderView, after: EncoderView, r: EncodeResult<()>) -> bool {
        if before.is_emitting_map_key {
            (after, r) == (before, Err::<(), EncoderError>(EncoderError::BadHashmapKey))
        } else {
            exists|first: EncoderView, r1: EncodeResult<()>| #[trigger]
                element_encodes(self.0, before.open('['), 0, first, r1) && (if r1 is Err {
                    (after, r) == (first, r1)
                } else {
                    exists|second: EncoderView, r2: EncodeResult<()>| #[trigger]
                        element_encodes(self.1, first, 1, second, r2) && (if r2 is Err {
                            (after, r) == (second, r2)
                        } else {
                            (after, r) == (second.close(']'), Ok::<(), EncoderError>(()))
                        })
                })
        }
    }

    fn encode(&self, s: &mut Encoder) -> (r: EncodeResult<()>) {
        if s.is_emitting_map_key() {
            return Err(EncoderError::BadHashmapKey);
        }
        s.open('[');
        let done = encode_element(&self.0, s, 0);
        if done.is_err() {
            return done;
        }
        let done = encode_element(&self.1, s, 1);
        if done.is_err() {
            return done;
        }
        s.close(']');
        Ok(())
    }
}

impl<A: Encodable, B: Encodable, C: Encodable> Encodable for (A, B, C) {
    /// The three elements between square brackets, up to the first that
    /// fails; as a key it is an error.
    open spec fn encodes(&self, before: EncoderView, after: EncoderView, r: EncodeResult<()>) -> bool {
        if before.is_emitting_map_key {
            (after, r) == (before, Err::<(), EncoderError>(EncoderError::BadHashmapKey))
        } else {
            exists|first: EncoderView, r1: EncodeResult<()>| #[trigger]
                element_encodes(self.0, before.open('['), 0, first, r1) && (if r1 is Err {
                    (after, r) == (first, r1)
                } else {
                    exists|second: EncoderView, r2: EncodeResult<()>| #[trigger]
                        element_encodes(self.1, first, 1, second, r2) && (if r2 is Err {
                            (after, r) == (second, r2)
                        } else {
                            exists|third: EncoderView, r3: EncodeResult<()>| #[trigger]
                                element_encodes(self.2, second, 2, third, r3) && (if r3 is Err {
                                    (after, r) == (third, r3)
                                } else {
                                    (after, r) == (third.close(']'), Ok::<(), EncoderError>(()))
                                })
                        })
                })
        }
    }

    fn encode(&self, s: &mut Encoder) -> (r: EncodeResult<()>) {
        if s.is_emitting_map_key() {
            return Err(EncoderError::BadHashmapKey);
        }
        s.open('[');
        let done = encode_element(&self.0, s, 0);
        if done.is_err() {
            return done;
        }
        let done = encode_element(&self.1, s, 1);
        if done.is_err() {
            return done;
        }
        let done = encode_element(&self.2, s, 2);
        if done.is_err() {
            return done;
        }
        s.close(']');
        Ok(())
    }
}

/// What taking a tuple of `len` elements apart leads to, before any of
/// them is read: the values `start` and no error, or the error `e`.
pub open spec fn tuple_start(
    before: Seq<JsonView>,
    len: nat,
    start: Seq<JsonView>,
    e: Option<DecoderErrorView>,
) -> bool {
    if before.len() == 0 {
        e == Some(DecoderErrorView::EOF) && start == before
    } else {
        match before.last() {
            JsonView::Array(items) => start == before.drop_last() + items.reverse() && e == (
            if items.len() == len {
                None
            } else {
                Some(
                    DecoderErrorView::ExpectedError(
                        "Tuple"@ + decimal(len),
                        "Tuple"@ + decimal(items.len()),
                    ),
                )
            }),
            other => start == before.drop_last() && e == Some(expected("Array"@, other)),
        }
    }
}

impl<A: Decodable, B: Decodable> Decodable for (A, B) {
    /// The next value is an array of two elements, which are read one
    /// after the other.
    open spec fn decoding(before: Seq<JsonView>, after: Seq<JsonView>, r: DecodeResult<(A, B)>) -> bool {
        exists|start: Seq<JsonView>, e: Option<DecoderErrorView>| #[trigger]
            tuple_start(before, 2, start, e) && match e {
                Some(e) => r is Err && r->Err_0@ == e && after == start,
                None => match r {
                    Ok(v) => exists|mid: Seq<JsonView>| #[trigger]
                        A::decoding(start, mid, Ok(v.0)) && B::decoding(mid, after, Ok(v.1)),
                    Err(e) => A::decoding(start, after, Err(e)) || exists|
                        mid: Seq<JsonView>,
                        a: A,
                    | #[trigger]
                        A::decoding(start, mid, Ok(a)) && B::decoding(mid, after, Err(e)),
                },
            }
    }

    fn decode(d: &mut Decoder) -> (r: DecodeResult<(A, B)>) {
        match d.begin_tuple(2) {
            Ok(_) => {},
            Err(e) => {
                proof {
                    assert(tuple_start(old(d)@, 2, d@, Some(e@)));
                }
                return Err(e);
            },
        }
        let ghost start = d@;
        proof {
            assert(tuple_start(old(d)@, 2, start, None));
        }
        let a = match A::decode(d) {
            Ok(a) => a,
            Err(e) => {
                return Err(e);
            },
        };
        let ghost mid = d@;
        let b = match B::decode(d) {
            Ok(b) => b,
            Err(e) => {
                proof {
                    assert(A::decoding(start, mid, Ok(a)) && B::decoding(mid, d@, Err(e)));
                }
                return Err(e);
            },
        };
        proof {
            let v = (a, b);
            assert(A::decoding(start, mid, Ok(v.0)) && B::decoding(mid, d@, Ok(v.1)));
            let r: DecodeResult<(A, B)> = Ok(v);
            assert(r is Ok && r->Ok_0 == v);
            assert(<(A, B) as Decodable>::decoding(old(d)@, d@, r));
        }
        Ok((a, b))
    }
}

impl<A: Decodable, B: Decodable, C: Decodable> Decodable for (A, B, C) {
    /// The next value is an array of three elements, which are read one
    /// after the other.
    open spec fn decoding(before: Seq<JsonView>, after: Seq<JsonView>, r: DecodeResult<(A, B, C)>) -> bool {
        exists|start: Seq<JsonView>, e: Option<DecoderErrorView>| #[trigger]
            tuple_start(before, 3, start, e) && match e {
                Some(e) => r is Err && r->Err_0@ == e && after == start,
                None => match r {
                    Ok(v) => exists|mid: Seq<JsonView>, late: Seq<JsonView>| #[trigger]
                        A::decoding(start, mid, Ok(v.0)) && #[trigger] B::decoding(
                            mid,
                            late,
                            Ok(v.1),
                        ) && C::decoding(late, after, Ok(v.2)),
                    Err(e) => A::decoding(start, after, Err(e)) || (exists|
                        mid: Seq<JsonView>,
                        a: A,
                    | #[trigger]
                        A::decoding(start, mid, Ok(a)) && B::decoding(mid, after, Err(e)))
                        || exists|mid: Seq<JsonView>, late: Seq<JsonView>, a: A, b: B| #[trigger]
                        A::decoding(start, mid, Ok(a)) && #[trigger] B::decoding(
                            mid,
                            late,
                            Ok(b),
                        ) && C::decoding(late, after, Err(e)),
                },
            }
    }

    fn decode(d: &mut Decoder) -> (r: DecodeResult<(A, B, C)>) {
        match d.begin_tuple(3) {
            Ok(_) => {},
            Err(e) => {
                proof {
                    assert(tuple_start(old(d)@, 3, d@, Some(e@)));
                }
                return Err(e);
            },
        }
        let ghost start = d@;
        proof {
            assert(tuple_start(old(d)@, 3, start, None));
        }
        let a = match A::decode(d) {
            Ok(a) => a,
            Err(e) => {
                return Err(e);
            },
        };
        let ghost mid = d@;
        let b = match B::decode(d) {
            Ok(b) => b,
            Err(e) => {
                proof {
                    assert(A::decoding(start, mid, Ok(a)) && B::decoding(mid, d@, Err(e)));
                }
                return Err(e);
            },
        };
        let ghost late = d@;
        let c = match C::decode(d) {
            Ok(c) => c,
            Err(e) => {
                proof {
                    assert(A::decoding(start, mid, Ok(a)) && B::decoding(mid, late, Ok(b))
                        && C::decoding(late, d@, Err(e)));
                }
                return Err(e);
            },
        };
        proof {
            let v = (a, b, c);
            assert(A::decoding(start, mid, Ok(v.0)) && B::decoding(mid, late, Ok(v.1))
                && C::decoding(late, d@, Ok(v.2)));
            let r: DecodeResult<(A, B, C)> = Ok(v);
            assert(r is Ok && r->Ok_0 == v);
            assert(<(A, B, C) as Decodable>::decoding(old(d)@, d@, r));
        }
        Ok((a, b, c))
    }
}

} // verus!
