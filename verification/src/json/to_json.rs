//! Values of other types as JSON values.

use vstd::prelude::*;
use crate::json::float::Float;
use crate::json::value::{items_view, lemma_items_view, Json, JsonView};

verus! {

/// A trait for converting values to JSON
pub trait ToJson {
    /// Whether `v` is the JSON value of `self`. A type that does not say so
    /// allows every value.
    open spec fn is_json(&self, v: JsonView) -> bool {
        true
    }

    /// Converts the value of `self` to an instance of JSON
    fn to_json(&self) -> (r: Json)
        ensures
            self.is_json(r@),
    ;
}

impl ToJson for Json {
    open spec fn is_json(&self, v: JsonView) -> bool {
        v == self@
    }

    fn to_json(&self) -> (r: Json) {
        self.clone()
    }
}

impl ToJson for Float {
    /// A finite number is itself; any other, for which JSON has no
    /// notation, is `null`.
    open spec fn is_json(&self, v: JsonView) -> bool {
        v == (if self@ is Finite {
            JsonView::F64(self@)
        } else {
            JsonView::Null
        })
    }

    fn to_json(&self) -> (r: Json) {
        match self {
            Float::Finite(d) => Json::F64(Float::Finite(d.clone())),
            _ => Json::Null,
        }
    }
}

impl ToJson for () {
    open spec fn is_json(&self, v: JsonView) -> bool {
        v == JsonView::Null
    }

    fn to_json(&self) -> (r: Json) {
        Json::Null
    }
}

impl ToJson for bool {
    open spec fn is_json(&self, v: JsonView) -> bool {
        v == JsonView::Boolean(*self)
    }

    fn to_json(&self) -> (r: Json) {
        Json::Boolean(*self)
    }
}

impl ToJson for str {
    open spec fn is_json(&self, v: JsonView) -> bool {
        v == JsonView::String(self@)
    }

    fn to_json(&self) -> (r: Json) {
        Json::String(self.to_owned())
    }
}

impl ToJson for String {
    open spec fn is_json(&self, v: JsonView) -> bool {
        v == JsonView::String(self@)
    }

    fn to_json(&self) -> (r: Json) {
        Json::String(self.clone())
    }
}

impl ToJson for isize {
    open spec fn is_json(&self, v: JsonView) -> bool {
        v == JsonView::I64(*self as i64)
    }

    fn to_json(&self) -> (r: Json) {
        Json::I64(*self as i64)
    }
}

impl ToJson for i8 {
    open spec fn is_json(&self, v: JsonView) -> bool {
        v == JsonView::I64(*self as i64)
    }

    fn to_json(&self) -> (r: Json) {
        Json::I64(*self as i64)
    }
}

impl ToJson for i16 {
    open spec fn is_json(&self, v: JsonView) -> bool {
        v == JsonView::I64(*self as i64)
    }

    fn to_json(&self) -> (r: Json) {
        Json::I64(*self as i64)
    }
}

impl ToJson for i32 {
    open spec fn is_json(&self, v: JsonView) -> bool {
        v == JsonView::I64(*self as i64)
    }

    fn to_json(&self) -> (r: Json) {
        Json::I64(*self as i64)
    }
}

impl ToJson for i64 {
    open spec fn is_json(&self, v: JsonView) -> bool {
        v == JsonView::I64(*self as i64)
    }

    fn to_json(&self) -> (r: Json) {
        Json::I64(*self as i64)
    }
}

impl ToJson for usize {
    open spec fn is_json(&self, v: JsonView) -> bool {
        v == JsonView::U64(*self as u64)
    }

    fn to_json(&self) -> (r: Json) {
        Json::U64(*self as u64)
    }
}

impl ToJson for u8 {
    open spec fn is_json(&self, v: JsonView) -> bool {
        v == JsonView::U64(*self as u64)
    }

    fn to_json(&self) -> (r: Json) {
        Json::U64(*self as u64)
    }
}

impl ToJson for u16 {
    open spec fn is_json(&self, v: JsonView) -> bool {
        v == JsonView::U64(*self as u64)
    }

    fn to_json(&self) -> (r: Json) {
        Json::U64(*self as u64)
    }
}

impl ToJson for u32 {
    open spec fn is_json(&self, v: JsonView) -> bool {
        v == JsonView::U64(*self as u64)
    }

    fn to_json(&self) -> (r: Json) {
        Json::U64(*self as u64)
    }
}

impl ToJson for u64 {
    open spec fn is_json(&self, v: JsonView) -> bool {
        v == JsonView::U64(*self as u64)
    }

    fn to_json(&self) -> (r: Json) {
        Json::U64(*self as u64)
    }
}

/// Whether `items` are the JSON values of `values`, one for one.
pub open spec fn are_json<A: ToJson>(values: Seq<A>, items: Seq<JsonView>) -> bool {
    items.len() == values.len() && forall|i: int|
        0 <= i < values.len() ==> (#[trigger] values[i]).is_json(items[i])
}

// The JSON values of the elements of a slice.
fn slice_to_json<A: ToJson>(values: &[A]) -> (r: Vec<Json>)
    ensures
        are_json(values@, items_view(r@)),
{
    let mut items: Vec<Json> = Vec::new();
    let mut i: usize = 0;
    while i < values.len()
        invariant
            i <= values@.len(),
            items@.len() == i,
            forall|j: int| 0 <= j < i ==> (#[trigger] values@[j]).is_json(items@[j]@),
        decreases values.len() - i,
    {
        items.push(values[i].to_json());
        i += 1;
    }
    proof {
        lemma_items_view(items@);
    }
    items
}

impl<A: ToJson> ToJson for [A] {
    /// An array of the JSON values of the elements.
    open spec fn is_json(&self, v: JsonView) -> bool {
        v is Array && are_json(self@, v->Array_0)
    }

    fn to_json(&self) -> (r: Json) {
        Json::Array(slice_to_json(self))
    }
}

impl<A: ToJson> ToJson for Vec<A> {
    /// An array of the JSON values of the elements.
    open spec fn is_json(&self, v: JsonView) -> bool {
        v is Array && are_json(self@, v->Array_0)
    }

    fn to_json(&self) -> (r: Json) {
        Json::Array(slice_to_json(self.as_slice()))
    }
}

impl<A: ToJson> ToJson for Option<A> {
    /// `null` for no value, and the JSON value of a value that is there.
    open spec fn is_json(&self, v: JsonView) -> bool {
        match self {
            None => v == JsonView::Null,
            Some(value) => value.is_json(v),
        }
    }

    fn to_json(&self) -> (r: Json) {
        match self {
            None => Json::Null,
            Some(value) => value.to_json(),
        }
    }
}

impl<A: ToJson, B: ToJson> ToJson for (A, B) {
    /// An array of the JSON values of the two elements.
    open spec fn is_json(&self, v: JsonView) -> bool {
        v is Array && v->Array_0.len() == 2 && self.0.is_json(v->Array_0[0]) && self.1.is_json(
            v->Array_0[1],
        )
    }

    fn to_json(&self) -> (r: Json) {
        let mut items: Vec<Json> = Vec::new();
        items.push(self.0.to_json());
        items.push(self.1.to_json());
        proof {
            lemma_items_view(items@);
        }
        Json::Array(items)
    }
}

impl<A: ToJson, B: ToJson, C: ToJson> ToJson for (A, B, C) {
    /// An array of the JSON values of the three elements.
    open spec fn is_json(&self, v: JsonView) -> bool {
        v is Array && v->Array_0.len() == 3 && self.0.is_json(v->Array_0[0]) && self.1.is_json(
            v->Array_0[1],
        ) && self.2.is_json(v->Array_0[2])
    }

    fn to_json(&self) -> (r: Json) {
        let mut items: Vec<Json> = Vec::new();
        items.push(self.0.to_json());
        items.push(self.1.to_json());
        items.push(self.2.to_json());
        proof {
            lemma_items_view(items@);
        }
        Json::Array(items)
    }
}

} // verus!
