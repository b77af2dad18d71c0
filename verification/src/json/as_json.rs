//! Whole values to text and back in one call.

use vstd::prelude::*;
use crate::json::builder::parse_document;
use crate::json::decoder::{DecodeResult, Decoder};
use crate::json::encoder::{EncodeResult, Encoder, EncoderView, EncodingFormat};
use crate::json::error::{DecoderError, DecoderErrorView, EncoderError};
use crate::json::value::{Json, JsonView};
use crate::serialize::{Decodable, Encodable};

verus! {

/// The state of an encoder that has written nothing yet.
pub open spec fn fresh(format: EncodingFormat) -> EncoderView {
    EncoderView { output: Seq::empty(), format, is_emitting_map_key: false }
}

/// Whether the text `r` is what encoding `object` with a fresh encoder in
/// the layout `format` can give: all that was written, or the error.
pub open spec fn encoded<T: Encodable>(
    object: T,
    format: EncodingFormat,
    r: Result<Seq<char>, EncoderError>,
) -> bool {
    match r {
        Ok(text) => exists|after: EncoderView| #[trigger]
            object.encodes(fresh(format), after, Ok(())) && after.output == text,
        Err(e) => exists|after: EncoderView| #[trigger] object.encodes(fresh(format), after, Err(e)),
    }
}

/// The view of a text that may be an error.
pub open spec fn text_result(r: EncodeResult<String>) -> Result<Seq<char>, EncoderError> {
    match r {
        Ok(s) => Ok(s@),
        Err(e) => Err(e),
    }
}

/// Shortcut function to decode a JSON `&str` into an object
pub fn decode<T: Decodable>(s: &str) -> (r: DecodeResult<T>)
    ensures
        match parse_document(s@) {
            Err(e) => r is Err && r->Err_0@ == DecoderErrorView::ParseError(e),
            Ok(v) => exists|after: Seq<JsonView>| #[trigger] T::decoding(seq![v], after, r),
        },
{
    let json = match Json::from_str(s) {
        Ok(x) => x,
        Err(e) => {
            return Err(DecoderError::ParseError(e));
        },
    };
    let mut decoder = Decoder::new(json);
    let r = T::decode(&mut decoder);
    proof {
        assert(T::decoding(seq![json@], decoder@, r));
    }
    r
}

/// Shortcut function to encode a `T` into a JSON `String`
pub fn encode<T: Encodable>(object: &T) -> (r: EncodeResult<String>)
    ensures
        encoded(*object, EncodingFormat::Compact, text_result(r)),
{
    let mut encoder = Encoder::new();
    let done = object.encode(&mut encoder);
    match done {
        Ok(_) => {
            proof {
                crate::serialize::lemma_unit_result(done);
            }
            Ok(encoder.into_string())
        },
        Err(e) => Err(e),
    }
}

/// A value that is written as compact JSON.
pub struct AsJson<'a, T> {
    inner: &'a T,
}

impl<'a, T: Encodable> AsJson<'a, T> {
    /// The value that is written.
    pub closed spec fn inner(&self) -> T {
        *self.inner
    }

    /// The compact text of the value.
    pub fn to_string(&self) -> (r: EncodeResult<String>)
        ensures
            encoded(self.inner(), EncodingFormat::Compact, text_result(r)),
    {
        encode(self.inner)
    }
}

/// A value that is written as indented JSON.
pub struct AsPrettyJson<'a, T> {
    inner: &'a T,
    indent: Option<u32>,
}

impl<'a, T> AsPrettyJson<'a, T> {
    /// The value that is written.
    pub closed spec fn inner(&self) -> T {
        *self.inner
    }

    /// The width of the indentation: two columns unless it was set.
    pub closed spec fn width(&self) -> u32 {
        match self.indent {
            Some(n) => n,
            None => 2,
        }
    }

    /// Set the indentation level for the emitted JSON
    pub fn indent(self, indent: u32) -> (r: AsPrettyJson<'a, T>)
        ensures
            r.inner() == self.inner(),
            r.width() == indent,
    {
        AsPrettyJson { inner: self.inner, indent: Some(indent) }
    }
}

impl<'a, T: Encodable> AsPrettyJson<'a, T> {
    /// The indented text of the value.
    pub fn to_string(&self) -> (r: EncodeResult<String>)
        ensures
            encoded(
                self.inner(),
                EncodingFormat::Pretty { level: 0, indent: self.width() },
                text_result(r),
            ),
    {
        let mut encoder = Encoder::new_pretty();
        if let Some(n) = self.indent {
            let _ = encoder.set_indent(n);
        }
        let done = self.inner.encode(&mut encoder);
        match done {
            Ok(_) => {
                proof {
                    crate::serialize::lemma_unit_result(done);
                }
                Ok(encoder.into_string())
            },
            Err(e) => Err(e),
        }
    }
}

/// Create an `AsJson` wrapper which can be used to print a value as JSON
/// on-the-fly.
pub fn as_json<T: Encodable>(t: &T) -> (r: AsJson<'_, T>)
    ensures
        r.inner() == *t,
{
    AsJson { inner: t }
}

/// Create an `AsPrettyJson` wrapper which can be used to print a value as
/// indented JSON on-the-fly.
pub fn as_pretty_json<T: Encodable>(t: &T) -> (r: AsPrettyJson<'_, T>)
    ensures
        r.inner() == *t,
        r.width() == 2,
{
    AsPrettyJson { inner: t, indent: None }
}

} // verus!
