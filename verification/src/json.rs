//! JSON parsing and serialization.
//!
//! A document is read either as a stream of [`JsonEvent`]s, by a [`Parser`]
//! that keeps track of where in the document it stands, or as a whole, into a
//! [`Json`] tree. A tree is written back as compact or indented text by an
//! [`Encoder`], and taken apart into typed values by a [`Decoder`].

pub mod as_json;
pub mod builder;
pub mod decoder;
pub mod encoder;
pub mod error;
pub mod event;
pub mod float;
pub mod key;
pub mod laws;
pub mod parser;
pub mod progress;
pub mod reading;
pub mod roundtrip;
pub mod stack;
pub mod text;
pub mod to_json;
pub mod value;

pub use self::error::{error_str, DecoderError, EncoderError, ErrorCode, ParserError};
pub use self::stack::{Stack, StackElement, StackElementView, SemiPubMethods};
pub use self::float::{Decimal, DecimalView, Float, FloatView};
pub use self::value::{Array, Json, JsonView, Object};
pub use self::event::{JsonEvent, JsonEventView};
pub use self::parser::{Parser, ParserState, ParserView};
pub use self::builder::{Builder, BuilderError};
pub use self::encoder::{
    escape_char, escape_str, fmt_number_or_null, spaces, EncodeResult, Encoder, EncoderView,
    EncodingFormat, PrettyJson,
};
pub use self::decoder::{DecodeResult, Decoder};
pub use self::as_json::{as_json, as_pretty_json, decode, encode, AsJson, AsPrettyJson};
pub use self::to_json::ToJson;
