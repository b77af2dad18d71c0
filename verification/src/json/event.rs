//! What a streaming parser hands out.

use vstd::prelude::*;
use crate::json::error::ParserError;
use crate::json::float::{Float, FloatView};

verus! {

/// The output of the streaming parser.
#[derive(PartialEq, Debug)]
pub enum JsonEvent {
    ObjectStart,
    ObjectEnd,
    ArrayStart,
    ArrayEnd,
    BooleanValue(bool),
    I64Value(i64),
    U64Value(u64),
    F64Value(Float),
    StringValue(String),
    NullValue,
    Error(ParserError),
}

/// The mathematical value of a [`JsonEvent`].
pub enum JsonEventView {
    ObjectStart,
    ObjectEnd,
    ArrayStart,
    ArrayEnd,
    BooleanValue(bool),
    I64Value(i64),
    U64Value(u64),
    F64Value(FloatView),
    StringValue(Seq<char>),
    NullValue,
    Error(ParserError),
}

impl View for JsonEvent {
    type V = JsonEventView;

    open spec fn view(&self) -> JsonEventView {
        match self {
            JsonEvent::ObjectStart => JsonEventView::ObjectStart,
            JsonEvent::ObjectEnd => JsonEventView::ObjectEnd,
            JsonEvent::ArrayStart => JsonEventView::ArrayStart,
            JsonEvent::ArrayEnd => JsonEventView::ArrayEnd,
            JsonEvent::BooleanValue(b) => JsonEventView::BooleanValue(*b),
            JsonEvent::I64Value(n) => JsonEventView::I64Value(*n),
            JsonEvent::U64Value(n) => JsonEventView::U64Value(*n),
            JsonEvent::F64Value(f) => JsonEventView::F64Value(f@),
            JsonEvent::StringValue(s) => JsonEventView::StringValue(s@),
            JsonEvent::NullValue => JsonEventView::NullValue,
            JsonEvent::Error(e) => JsonEventView::Error(*e),
        }
    }
}

/// The view of an event that may be missing.
pub open spec fn event_view(e: Option<JsonEvent>) -> Option<JsonEventView> {
    match e {
        Some(e) => Some(e@),
        None => None,
    }
}

} // verus!
