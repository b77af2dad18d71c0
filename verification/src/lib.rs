//! Encoding and decoding of typed values, with JSON as the text format.
//!
//! Every function of this crate is verified: its contract states what it
//! returns, over the mathematical views of the values it takes. What holds
//! of all values is proved beside the functions: the text of a value is
//! read back as that value, an object is the same whatever the order in
//! which its keys were bound, and base64 text stands for the bytes that
//! it was made of.
//!
//! Numbers with a fraction or an exponent are kept as decimal numerals,
//! digit for digit, so nothing here rounds.

pub mod base64;
pub mod json;
pub mod serialize;

pub use self::serialize::{Decodable, Encodable};
