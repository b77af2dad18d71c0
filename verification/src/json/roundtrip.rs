//! What is written is read back: the text of a value denotes that value.

use vstd::prelude::*;
use crate::json::builder::{
    build_array_from, build_object_from, build_value, goes_on, lemma_build_value_reads_on,
    parse_document,
};
use crate::json::encoder::{elements_text, entries_text, escaped, json_text, EncodingFormat};
use crate::json::error::ParserError;
use crate::json::event::JsonEventView;
use crate::json::float::Float;
use crate::json::parser::{state_after_value, ParserState, ParserView};
use crate::json::progress::starts_value;
use crate::json::reading::{
    at, bumps, ends_number, is_blank, lemma_at_char, lemma_at_split, lemma_bumps,
    lemma_bumps_add, lemma_bumps_next, lemma_bumps_with_stack, lemma_bumps_with_state,
    lemma_decimal_shape, lemma_parse_decimal, lemma_parse_ident, lemma_parse_negative,
    lemma_parse_str, lemma_parse_unsigned, lemma_skip_blank,
};
use crate::json::stack::{next_index, StackElementView};
use crate::json::text::{decimal, is_digit};
use crate::json::value::{
    items_view, lemma_items_view, lemma_rank, sorted, with_entry, Json, JsonView,
};

verus! {

/// Whether the value is one that a document can denote: its floating-point
/// numbers are finite, and its signed integers negative. (A number without
/// a sign is read as an unsigned one, and what is no number is written as
/// `null`.) Its arrays and objects are no longer than a vector can be.
pub open spec fn readable(v: JsonView) -> bool
    decreases v,
{
    match v {
        JsonView::I64(n) => n < 0,
        JsonView::F64(f) => f is Finite,
        JsonView::Array(items) => items.len() <= usize::MAX && forall|i: int|
            0 <= i < items.len() ==> readable(#[trigger] items[i]),
        JsonView::Object(entries) => entries.len() <= usize::MAX && forall|i: int|
            0 <= i < entries.len() ==> readable((#[trigger] entries[i]).1),
        _ => true,
    }
}

/// Whether a value can start with the character.
pub open spec fn starts_token(c: char) -> bool {
    c == 'n' || c == 't' || c == 'f' || c == '-' || is_digit(c) || c == '"' || c == '[' || c
        == '{'
}

/// The event that a scalar is read as.
pub open spec fn scalar_event(v: JsonView) -> JsonEventView {
    match v {
        JsonView::I64(n) => JsonEventView::I64Value(n),
        JsonView::U64(n) => JsonEventView::U64Value(n),
        JsonView::F64(f) => JsonEventView::F64Value(f),
        JsonView::String(s) => JsonEventView::StringValue(s),
        JsonView::Boolean(b) => JsonEventView::BooleanValue(b),
        _ => JsonEventView::NullValue,
    }
}

/// The index of the element at place `i` of an array, as the parser counts
/// it.
pub open spec fn nth_index(i: nat) -> u32
    decreases i,
{
    if i == 0 {
        0
    } else {
        next_index(nth_index((i - 1) as nat))
    }
}

/// The text of a value starts with a character that a value can start
/// with.
pub proof fn lemma_text_starts(v: JsonView, format: EncodingFormat)
    requires
        readable(v),
    ensures
        json_text(v, format).len() >= 1,
        starts_token(json_text(v, format)[0]),
{
    match v {
        JsonView::I64(n) => {
            lemma_decimal_shape((-n) as nat);
        },
        JsonView::U64(n) => {
            lemma_decimal_shape(n as nat);
        },
        JsonView::F64(f) => {
            let d = f->Finite_0;
            lemma_decimal_shape(d.integer as nat);
            let head = (if d.negative {
                seq!['-']
            } else {
                Seq::<char>::empty()
            }) + decimal(d.integer as nat);
            assert(d.text()[0] == head[0]);
        },
        JsonView::String(s) => {},
        JsonView::Boolean(b) => {},
        JsonView::Array(items) => {},
        JsonView::Object(entries) => {},
        JsonView::Null => {},
    }
}

/// What starts a line is white space.
pub proof fn lemma_newline_blank(format: EncodingFormat)
    ensures
        is_blank(format.newline()),
        is_blank(format.indentation()),
{
}

/// **A scalar is read back as it was written.** Where the text of a scalar
/// stands and no number goes on after it, the parser reads the scalar in
/// one event and moves past the text.
pub proof fn lemma_read_scalar(q: ParserView, v: JsonView, format: EncodingFormat)
    requires
        readable(v),
        v.wf(),
        !(v is Array),
        !(v is Object),
        at(q, json_text(v, format)),
        ends_number(bumps(q, json_text(v, format).len())),
    ensures
        q.parse_value() == (bumps(q, json_text(v, format).len()), scalar_event(v)),
{
    let text = json_text(v, format);
    lemma_text_starts(v, format);
    lemma_at_char(q, text, 0);
    assert(bumps(q, 0) == q);
    match v {
        JsonView::I64(n) => {
            lemma_parse_negative(q, n);
        },
        JsonView::U64(n) => {
            lemma_decimal_shape(n as nat);
            lemma_parse_unsigned(q, n);
        },
        JsonView::F64(f) => {
            let d = f->Finite_0;
            lemma_decimal_shape(d.integer as nat);
            let head = (if d.negative {
                seq!['-']
            } else {
                Seq::<char>::empty()
            }) + decimal(d.integer as nat);
            assert(d.text()[0] == head[0]);
            lemma_parse_decimal(q, d);
        },
        JsonView::String(s) => {
            lemma_parse_str(q, s);
        },
        JsonView::Boolean(b) => {
            if b {
                assert(text =~= seq!['t'] + seq!['r', 'u', 'e']);
                lemma_at_split(q, seq!['t'], seq!['r', 'u', 'e']);
                lemma_bumps_next(q, 0);
                lemma_parse_ident(q, seq!['r', 'u', 'e'], JsonEventView::BooleanValue(true));
            } else {
                assert(text =~= seq!['f'] + seq!['a', 'l', 's', 'e']);
                lemma_at_split(q, seq!['f'], seq!['a', 'l', 's', 'e']);
                lemma_bumps_next(q, 0);
                lemma_parse_ident(
                    q,
                    seq!['a', 'l', 's', 'e'],
                    JsonEventView::BooleanValue(false),
                );
            }
        },
        _ => {
            assert(text =~= seq!['n'] + seq!['u', 'l', 'l']);
            lemma_at_split(q, seq!['n'], seq!['u', 'l', 'l']);
            lemma_bumps_next(q, 0);
            lemma_parse_ident(q, seq!['u', 'l', 'l'], JsonEventView::NullValue);
        },
    }
}

/// The parser that has read `n` characters from `q` on and finished a
/// value there.
pub open spec fn finished(q: ParserView, n: nat) -> ParserView {
    bumps(q, n).with_state(state_after_value(q.stack))
}

/// The parser at the text of the element at place `k` of an array whose
/// text starts where `q` stands.
pub open spec fn element_start(
    q: ParserView,
    items: Seq<JsonView>,
    format: EncodingFormat,
    k: int,
    state: ParserState,
) -> ParserView {
    let d = format.deeper();
    bumps(
        q,
        1 + elements_text(items, d, k).len() + d.separator(k as usize).len(),
    ).with_stack(q.stack.push(StackElementView::Index(nth_index(k as nat)))).with_state(state)
}

/// The parser after the element at place `k` of an array whose text starts
/// where `q` stands.
pub open spec fn element_end(
    q: ParserView,
    items: Seq<JsonView>,
    format: EncodingFormat,
    k: int,
) -> ParserView {
    let d = format.deeper();
    bumps(q, 1 + elements_text(items, d, k + 1).len()).with_stack(
        q.stack.push(StackElementView::Index(nth_index(k as nat))),
    ).with_state(ParserState::ParseArrayComma)
}

/// The text of an array that is not empty, from the opening bracket to
/// the closing one.
pub open spec fn array_text(items: Seq<JsonView>, format: EncodingFormat) -> Seq<char> {
    seq!['['] + elements_text(items, format.deeper(), items.len() as int) + format.newline()
        + seq![']']
}

/// Where the elements of an array stand, the first `k` of them stand.
pub proof fn lemma_elements_at(
    p: ParserView,
    items: Seq<JsonView>,
    d: EncodingFormat,
    k: int,
)
    requires
        at(p, elements_text(items, d, items.len() as int)),
        0 <= k <= items.len(),
    ensures
        at(p, elements_text(items, d, k)),
        k < items.len() ==> at(
            bumps(p, elements_text(items, d, k).len()),
            d.separator(k as usize) + json_text(items[k], d),
        ),
    decreases items.len() - k,
{
    if k < items.len() {
        lemma_elements_at(p, items, d, k + 1);
        assert(elements_text(items, d, k + 1) =~= elements_text(items, d, k) + (d.separator(
            k as usize,
        ) + json_text(items[k], d)));
        lemma_at_split(
            p,
            elements_text(items, d, k),
            d.separator(k as usize) + json_text(items[k], d),
        );
    }
}

/// The places of an array: where its text stands, the text of each element
/// stands after its separator, and after the last element a new line and
/// the closing bracket.
pub proof fn lemma_array_places(
    q: ParserView,
    items: Seq<JsonView>,
    format: EncodingFormat,
    k: int,
)
    requires
        at(q, array_text(items, format)),
        0 <= k <= items.len(),
        usize::MAX >= items.len(),
    ensures
        q.ch() == Some('['),
        k < items.len() ==> at(
            bumps(q, 1 + elements_text(items, format.deeper(), k).len()),
            format.deeper().separator(k as usize),
        ),
        k < items.len() ==> at(
            bumps(
                q,
                1 + elements_text(items, format.deeper(), k).len() + format.deeper().separator(
                    k as usize,
                ).len(),
            ),
            json_text(items[k], format.deeper()),
        ),
        k < items.len() ==> elements_text(items, format.deeper(), k + 1).len()
            == elements_text(items, format.deeper(), k).len() + format.deeper().separator(
            k as usize,
        ).len() + json_text(items[k], format.deeper()).len(),
        at(
            bumps(q, 1 + elements_text(items, format.deeper(), items.len() as int).len()),
            format.newline() + seq![']'],
        ),
        array_text(items, format).len() == 1 + elements_text(
            items,
            format.deeper(),
            items.len() as int,
        ).len() + format.newline().len() + 1,
{
    let d = format.deeper();
    let all = elements_text(items, d, items.len() as int);
    let tail = format.newline() + seq![']'];
    assert(array_text(items, format) =~= seq!['['] + (all + tail));
    lemma_at_split(q, seq!['['], all + tail);
    lemma_at_char(q, seq!['['], 0);
    assert(bumps(q, 0) == q);
    let p1 = bumps(q, 1);
    lemma_at_split(p1, all, tail);
    lemma_bumps_add(q, 1, all.len());
    lemma_elements_at(p1, items, d, k);
    if k < items.len() {
        let before = elements_text(items, d, k);
        lemma_bumps_add(q, 1, before.len());
        lemma_at_split(bumps(p1, before.len()), d.separator(k as usize), json_text(items[k], d));
        lemma_bumps_add(q, 1 + before.len(), d.separator(k as usize).len());
        assert(elements_text(items, d, k + 1) =~= before + d.separator(k as usize) + json_text(
            items[k],
            d,
        ));
    }
}

/// What follows an element of an array, or a value of an object, is no
/// part of a number: a comma, a new line or a closing bracket.
pub proof fn lemma_separator_ends_number(p: ParserView, d: EncodingFormat, k: int, rest: Seq<char>)
    requires
        0 < k <= usize::MAX,
        at(p, d.separator(k as usize) + rest),
    ensures
        p.ch() == Some(','),
        ends_number(p),
        !p.at_whitespace(),
{
    let text = d.separator(k as usize) + rest;
    assert(text[0] == ',');
    lemma_at_char(p, text, 0);
    assert(bumps(p, 0) == p);
}

/// The same before the bracket that closes a container.
pub proof fn lemma_closing_ends_number(p: ParserView, format: EncodingFormat, bracket: char)
    requires
        bracket == ']' || bracket == '}',
        at(p, format.newline() + seq![bracket]),
    ensures
        ends_number(p),
        !p.ch_is(','),
        p.skip_whitespace() == bumps(p, format.newline().len()),
        bumps(p, format.newline().len()).ch() == Some(bracket),
        bumps(p, format.newline().len()).pos < p.input.len(),
{
    let text = format.newline() + seq![bracket];
    lemma_at_char(p, text, 0);
    assert(bumps(p, 0) == p);
    lemma_at_split(p, format.newline(), seq![bracket]);
    let close = bumps(p, format.newline().len());
    lemma_at_char(close, seq![bracket], 0);
    assert(bumps(close, 0) == close);
    lemma_bumps(p, format.newline().len());
    lemma_newline_blank(format);
    lemma_skip_blank(p, format.newline());
    if format.newline().len() > 0 {
        assert(text[0] == format.newline()[0]);
    } else {
        assert(text[0] == bracket);
    }
}

/// The index of the next element follows the index of this one.
pub proof fn lemma_nth_index(k: nat)
    ensures
        nth_index(k + 1) == next_index(nth_index(k)),
{
}

/// **A value is read back as it was written.** Where the text of a value
/// stands and no number goes on after it, the first event that the parser
/// reads starts a value, and the builder makes of it and of the events
/// that follow the value that was written; the parser has then moved past
/// the text, and expects what comes after a value.
pub proof fn lemma_read_value(q: ParserView, v: JsonView, format: EncodingFormat)
    requires
        readable(v),
        v.wf(),
        at(q, json_text(v, format)),
        ends_number(bumps(q, json_text(v, format).len())),
    ensures
        starts_value(Some(q.parse_value_then(state_after_value(q.stack)).1)),
        build_value(
            q.parse_value_then(state_after_value(q.stack)).0,
            Some(q.parse_value_then(state_after_value(q.stack)).1),
        ) == (finished(q, json_text(v, format).len()), Ok::<JsonView, ParserError>(v)),
    decreases v, 1int, 0int,
{
    let text = json_text(v, format);
    let otherwise = state_after_value(q.stack);
    match v {
        JsonView::Array(items) => {
            lemma_at_char(q, text, 0);
            assert(bumps(q, 0) == q);
            lemma_bumps_next(q, 0);
            let opened = q.bump().with_state(ParserState::ParseArray(true));
            assert(q.parse_value_then(otherwise) == (opened, JsonEventView::ArrayStart));
            reveal(ParserView::step);
            if items.len() == 0 {
                lemma_at_char(q, text, 1);
                lemma_bumps_next(q, 1);
                lemma_bumps_with_state(q, otherwise, 2);
                assert(opened.skip_whitespace() == opened);
                assert(opened.step() == (finished(q, 2), Some(JsonEventView::ArrayEnd)));
                assert(items =~= Seq::<JsonView>::empty());
            } else {
                lemma_array_places(q, items, format, 0);
                let d = format.deeper();
                let first = element_start(q, items, format, 0, ParserState::ParseArray(true));
                // The first element stands after the white space that
                // follows the bracket.
                assert(elements_text(items, d, 0) =~= Seq::<char>::empty());
                lemma_text_starts(items[0], d);
                lemma_at_char(bumps(q, 1 + d.separator(0).len()), json_text(items[0], d), 0);
                assert(bumps(bumps(q, 1 + d.separator(0).len()), 0) == bumps(
                    q,
                    1 + d.separator(0).len(),
                ));
                lemma_newline_blank(d);
                assert(d.separator(0) =~= d.newline());
                lemma_bumps_with_state(q, ParserState::ParseArray(true), 1);
                lemma_bumps_with_state(
                    bumps(q, 1),
                    ParserState::ParseArray(true),
                    d.separator(0).len(),
                );
                lemma_bumps_add(q, 1, d.separator(0).len());
                lemma_bumps(q, 1 + d.separator(0).len());
                lemma_skip_blank(bumps(q, 1), d.separator(0));
                let here = opened.skip_whitespace();
                assert(opened.skip_whitespace() == bumps(opened, d.separator(0).len())) by {
                    lemma_bumps(q, 1);
                    lemma_skip_blank(opened, d.separator(0));
                }
                assert(here == bumps(q, 1 + d.separator(0).len()).with_state(
                    ParserState::ParseArray(true),
                ));
                assert(here.with_stack(here.stack.push(StackElementView::Index(0))) == first);
                assert(opened.step() == (
                    first.parse_value_then(ParserState::ParseArrayComma).0,
                    Some(first.parse_value_then(ParserState::ParseArrayComma).1),
                ));
                assert(items.take(0) =~= Seq::<JsonView>::empty());
                lemma_read_element(q, items, format, 0, ParserState::ParseArray(true));
            }
        },
        JsonView::Object(entries) => {
            lemma_at_char(q, text, 0);
            assert(bumps(q, 0) == q);
            lemma_bumps_next(q, 0);
            let opened = q.bump().with_state(ParserState::ParseObject(true));
            assert(q.parse_value_then(otherwise) == (opened, JsonEventView::ObjectStart));
            reveal(ParserView::step);
            if entries.len() == 0 {
                lemma_at_char(q, text, 1);
                lemma_bumps_next(q, 1);
                lemma_bumps_with_state(q, otherwise, 2);
                assert(opened.skip_whitespace() == opened);
                assert(opened.step() == (finished(q, 2), Some(JsonEventView::ObjectEnd)));
                assert(entries =~= Seq::<(Seq<char>, JsonView)>::empty());
            } else {
                lemma_object_places(q, entries, format, 0);
                let d = format.deeper();
                let first = entry_start(q, entries, format, 0, ParserState::ParseObject(true));
                assert(entries_text(entries, d, 0) =~= Seq::<char>::empty());
                lemma_at_char(bumps(q, 1 + d.separator(0).len()), escaped(entries[0].0), 0);
                assert(bumps(bumps(q, 1 + d.separator(0).len()), 0) == bumps(
                    q,
                    1 + d.separator(0).len(),
                ));
                lemma_newline_blank(d);
                assert(d.separator(0) =~= d.newline());
                lemma_bumps_with_state(q, ParserState::ParseObject(true), 1);
                lemma_bumps_with_state(
                    bumps(q, 1),
                    ParserState::ParseObject(true),
                    d.separator(0).len(),
                );
                lemma_bumps_add(q, 1, d.separator(0).len());
                lemma_bumps(q, 1 + d.separator(0).len());
                assert(opened.skip_whitespace() == bumps(opened, d.separator(0).len())) by {
                    lemma_bumps(q, 1);
                    lemma_skip_blank(opened, d.separator(0));
                }
                assert(opened.skip_whitespace() == first);
                assert(opened.step() == (
                    first.parse_object(true).0,
                    Some(first.parse_object(true).1),
                ));
                assert(entries.take(0) =~= Seq::<(Seq<char>, JsonView)>::empty());
                lemma_read_entry(q, entries, format, 0, ParserState::ParseObject(true), true);
            }
        },
        _ => {
            lemma_read_scalar(q, v, format);
            lemma_bumps(q, text.len());
        },
    }
}

/// An array is read back from the element at place `k` on: where the
/// elements before it have been read, the parser that stands at the text
/// of the element reads the first event of the element, and the builder
/// makes the whole array of what follows.
pub proof fn lemma_read_element(
    q: ParserView,
    items: Seq<JsonView>,
    format: EncodingFormat,
    k: int,
    state: ParserState,
)
    requires
        readable(JsonView::Array(items)),
        JsonView::Array(items).wf(),
        at(q, array_text(items, format)),
        0 <= k < items.len(),
    ensures
        build_array_from(
            element_start(q, items, format, k, state).parse_value_then(
                ParserState::ParseArrayComma,
            ).0,
            Some(
                element_start(q, items, format, k, state).parse_value_then(
                    ParserState::ParseArrayComma,
                ).1,
            ),
            items.take(k),
        ) == (
            finished(q, array_text(items, format).len()),
            Ok::<JsonView, ParserError>(JsonView::Array(items)),
        ),
    decreases JsonView::Array(items), 0int, 2 * (items.len() - k),
{
    let d = format.deeper();
    let e = element_start(q, items, format, k, state);
    let text = json_text(items[k], d);
    let start = 1 + elements_text(items, d, k).len() + d.separator(k as usize).len();
    lemma_array_places(q, items, format, k);
    lemma_array_places(q, items, format, k + 1);
    lemma_bumps(q, start as nat);
    lemma_bumps_add(q, start as nat, text.len());
    let top = StackElementView::Index(nth_index(k as nat));
    lemma_bumps_with_stack(bumps(q, start as nat), q.stack.push(top), text.len());
    lemma_bumps_with_state(
        bumps(q, start as nat).with_stack(q.stack.push(top)),
        state,
        text.len(),
    );
    let after_text = bumps(q, (1 + elements_text(items, d, k + 1).len()) as nat);
    assert(bumps(e, text.len()) == after_text.with_stack(q.stack.push(top)).with_state(state));
    // What follows the element is no part of a number.
    if k + 1 < items.len() {
        lemma_separator_ends_number(after_text, d, k + 1, Seq::empty());
        assert(d.separator((k + 1) as usize) + Seq::<char>::empty() =~= d.separator(
            (k + 1) as usize,
        ));
    } else {
        lemma_closing_ends_number(after_text, format, ']');
    }
    assert(ends_number(bumps(e, text.len())));
    assert(at(e, text));
    lemma_read_value(e, items[k], d);
    let (first, token) = e.parse_value_then(ParserState::ParseArrayComma);
    assert(state_after_value(e.stack) == ParserState::ParseArrayComma);
    lemma_build_value_reads_on(first, Some(token));
    let after = finished(e, text.len());
    assert(after == element_end(q, items, format, k));
    assert(goes_on(first, Some(token), after));
    assert(items.take(k).push(items[k]) =~= items.take(k + 1));
    lemma_read_elements(q, items, format, k);
}

/// An array is read back from the end of the element at place `k` on:
/// the parser reads the comma and the next element, or the closing
/// bracket, and the builder makes the whole array of what follows.
pub proof fn lemma_read_elements(
    q: ParserView,
    items: Seq<JsonView>,
    format: EncodingFormat,
    k: int,
)
    requires
        readable(JsonView::Array(items)),
        JsonView::Array(items).wf(),
        at(q, array_text(items, format)),
        0 <= k < items.len(),
    ensures
        build_array_from(
            element_end(q, items, format, k).step().0,
            element_end(q, items, format, k).step().1,
            items.take(k + 1),
        ) == (
            finished(q, array_text(items, format).len()),
            Ok::<JsonView, ParserError>(JsonView::Array(items)),
        ),
    decreases JsonView::Array(items), 0int, 2 * (items.len() - k) - 1,
{
    let d = format.deeper();
    let a = element_end(q, items, format, k);
    let n = 1 + elements_text(items, d, k + 1).len();
    let top = StackElementView::Index(nth_index(k as nat));
    let at_end = bumps(q, n as nat);
    lemma_bumps(q, n as nat);
    lemma_array_places(q, items, format, k + 1);
    reveal(ParserView::step);
    assert(a.stack.drop_last() =~= q.stack);
    assert(a.ch() == at_end.ch());
    if k + 1 < items.len() {
        lemma_separator_ends_number(at_end, d, k + 1, Seq::empty());
        assert(d.separator((k + 1) as usize) + Seq::<char>::empty() =~= d.separator(
            (k + 1) as usize,
        ));
        assert(a.skip_whitespace() == a);
        let top2 = StackElementView::Index(nth_index((k + 1) as nat));
        lemma_nth_index(k as nat);
        assert(a.stack.drop_last().push(StackElementView::Index(next_index(nth_index(k as nat))))
            =~= q.stack.push(top2));
        let moved = a.with_stack(q.stack.push(top2)).with_state(
            ParserState::ParseArray(false),
        ).bump();
        assert(a.parse_array_comma_or_end() == (moved, None::<JsonEventView>));
        // The next element stands after the comma and the white space.
        let sep = d.separator((k + 1) as usize);
        assert(sep =~= seq![','] + d.newline());
        lemma_at_split(at_end, seq![','], d.newline());
        lemma_bumps_next(q, n as nat);
        lemma_bumps_add(q, n as nat, 1);
        lemma_bumps_add(q, (n + 1) as nat, d.newline().len());
        lemma_bumps_add(at_end, 1, d.newline().len());
        let next = element_start(q, items, format, k + 1, ParserState::ParseArray(false));
        lemma_bumps(q, (n + sep.len()) as nat);
        lemma_text_starts(items[k + 1], d);
        lemma_at_char(bumps(q, (n + sep.len()) as nat), json_text(items[k + 1], d), 0);
        assert(bumps(bumps(q, (n + sep.len()) as nat), 0) == bumps(q, (n + sep.len()) as nat));
        lemma_newline_blank(d);
        assert(moved == bumps(q, (n + 1) as nat).with_stack(q.stack.push(top2)).with_state(
            ParserState::ParseArray(false),
        ));
        lemma_bumps(q, (n + 1) as nat);
        lemma_bumps_with_stack(bumps(q, (n + 1) as nat), q.stack.push(top2), d.newline().len());
        lemma_bumps_with_state(
            bumps(q, (n + 1) as nat).with_stack(q.stack.push(top2)),
            ParserState::ParseArray(false),
            d.newline().len(),
        );
        assert(at(moved, d.newline()));
        assert(bumps(moved, d.newline().len()) == next);
        lemma_skip_blank(moved, d.newline());
        assert(moved.skip_whitespace() == next);
        assert(!next.ch_is(']'));
        assert(a.step() == (
            next.parse_value_then(ParserState::ParseArrayComma).0,
            Some(next.parse_value_then(ParserState::ParseArrayComma).1),
        ));
        lemma_read_element(q, items, format, k + 1, ParserState::ParseArray(false));
    } else {
        lemma_closing_ends_number(at_end, format, ']');
        let close = bumps(at_end, format.newline().len());
        lemma_bumps_with_stack(at_end, q.stack.push(top), format.newline().len());
        lemma_bumps_with_state(
            at_end.with_stack(q.stack.push(top)),
            ParserState::ParseArrayComma,
            format.newline().len(),
        );
        lemma_newline_blank(format);
        lemma_at_split(at_end, format.newline(), seq![']']);
        assert(at(a, format.newline()));
        let here = bumps(a, format.newline().len());
        assert(here == close.with_stack(q.stack.push(top)).with_state(
            ParserState::ParseArrayComma,
        ));
        assert(here.ch() == close.ch());
        lemma_skip_blank(a, format.newline());
        assert(a.skip_whitespace() == here);
        lemma_bumps_add(q, n as nat, format.newline().len());
        lemma_bumps_next(q, (n + format.newline().len()) as nat);
        lemma_bumps_with_state(q, state_after_value(q.stack), array_text(items, format).len());
        assert(here.stack.drop_last() =~= q.stack);
        let m = (n + format.newline().len()) as nat;
        lemma_bumps(q, m);
        assert(close == bumps(q, m));
        assert(here.with_stack(q.stack) == bumps(q, m).with_state(ParserState::ParseArrayComma));
        assert(bumps(q, m).with_state(state_after_value(q.stack)).bump() == bumps(
            q,
            m,
        ).bump().with_state(state_after_value(q.stack)));
        assert(here.with_stack(q.stack).close() == finished(
            q,
            array_text(items, format).len(),
        ));
        assert(a.step() == (
            finished(q, array_text(items, format).len()),
            Some(JsonEventView::ArrayEnd),
        ));
        assert(items.take(k + 1) =~= items);
    }
}

/// The text of an object that is not empty, from the opening brace to
/// the closing one.
pub open spec fn object_text(entries: Seq<(Seq<char>, JsonView)>, format: EncodingFormat) -> Seq<
    char,
> {
    seq!['{'] + entries_text(entries, format.deeper(), entries.len() as int) + format.newline()
        + seq!['}']
}

/// The number of characters before the key of the entry at place `k` of
/// an object.
pub open spec fn key_offset(entries: Seq<(Seq<char>, JsonView)>, format: EncodingFormat, k: int) -> int {
    (1 + entries_text(entries, format.deeper(), k).len() + format.deeper().separator(
        k as usize,
    ).len()) as int
}

/// The number of characters before the value of the entry at place `k`
/// of an object.
pub open spec fn value_offset(entries: Seq<(Seq<char>, JsonView)>, format: EncodingFormat, k: int) -> int {
    key_offset(entries, format, k) + escaped(entries[k].0).len() + format.deeper().colon().len()
}

/// The parser at the key of the entry at place `k` of an object whose
/// text starts where `q` stands.
pub open spec fn entry_start(
    q: ParserView,
    entries: Seq<(Seq<char>, JsonView)>,
    format: EncodingFormat,
    k: int,
    state: ParserState,
) -> ParserView {
    bumps(q, key_offset(entries, format, k) as nat).with_state(state)
}

/// The parser at the value of the entry at place `k`.
pub open spec fn value_start(
    q: ParserView,
    entries: Seq<(Seq<char>, JsonView)>,
    format: EncodingFormat,
    k: int,
    state: ParserState,
) -> ParserView {
    bumps(q, value_offset(entries, format, k) as nat).with_stack(
        q.stack.push(StackElementView::Key(entries[k].0)),
    ).with_state(state)
}

/// The parser after the entry at place `k`.
pub open spec fn entry_end(
    q: ParserView,
    entries: Seq<(Seq<char>, JsonView)>,
    format: EncodingFormat,
    k: int,
) -> ParserView {
    bumps(q, (1 + entries_text(entries, format.deeper(), k + 1).len()) as nat).with_stack(
        q.stack.push(StackElementView::Key(entries[k].0)),
    ).with_state(ParserState::ParseObjectComma)
}

/// The text of an entry: its key, a colon, its value.
pub open spec fn entry_text(entry: (Seq<char>, JsonView), d: EncodingFormat) -> Seq<char> {
    escaped(entry.0) + (d.colon() + json_text(entry.1, d))
}

/// Where the entries of an object stand, the first `k` of them stand.
pub proof fn lemma_entries_at(
    p: ParserView,
    entries: Seq<(Seq<char>, JsonView)>,
    d: EncodingFormat,
    k: int,
)
    requires
        at(p, entries_text(entries, d, entries.len() as int)),
        0 <= k <= entries.len(),
    ensures
        at(p, entries_text(entries, d, k)),
        k < entries.len() ==> at(
            bumps(p, entries_text(entries, d, k).len()),
            d.separator(k as usize) + entry_text(entries[k], d),
        ),
        k < entries.len() ==> entries_text(entries, d, k + 1).len() == entries_text(
            entries,
            d,
            k,
        ).len() + d.separator(k as usize).len() + entry_text(entries[k], d).len(),
    decreases entries.len() - k,
{
    if k < entries.len() {
        lemma_entries_at(p, entries, d, k + 1);
        assert(entries_text(entries, d, k + 1) =~= entries_text(entries, d, k) + (d.separator(
            k as usize,
        ) + entry_text(entries[k], d)));
        lemma_at_split(
            p,
            entries_text(entries, d, k),
            d.separator(k as usize) + entry_text(entries[k], d),
        );
    }
}

/// The places of an object: where its text stands, each entry stands
/// after its separator, the key, the colon and the value one after the
/// other, and after the last entry a new line and the closing brace.
pub proof fn lemma_object_places(
    q: ParserView,
    entries: Seq<(Seq<char>, JsonView)>,
    format: EncodingFormat,
    k: int,
)
    requires
        at(q, object_text(entries, format)),
        0 <= k <= entries.len(),
    ensures
        q.ch() == Some('{'),
        k < entries.len() ==> at(
            bumps(q, (1 + entries_text(entries, format.deeper(), k).len()) as nat),
            format.deeper().separator(k as usize),
        ),
        k < entries.len() ==> at(
            bumps(q, key_offset(entries, format, k) as nat),
            escaped(entries[k].0),
        ),
        k < entries.len() ==> at(
            bumps(q, (key_offset(entries, format, k) + escaped(entries[k].0).len()) as nat),
            format.deeper().colon(),
        ),
        k < entries.len() ==> at(
            bumps(q, value_offset(entries, format, k) as nat),
            json_text(entries[k].1, format.deeper()),
        ),
        k < entries.len() ==> 1 + entries_text(entries, format.deeper(), k + 1).len()
            == value_offset(entries, format, k) + json_text(entries[k].1, format.deeper()).len(),
        at(
            bumps(q, (1 + entries_text(entries, format.deeper(), entries.len() as int).len()) as nat),
            format.newline() + seq!['}'],
        ),
        object_text(entries, format).len() == 1 + entries_text(
            entries,
            format.deeper(),
            entries.len() as int,
        ).len() + format.newline().len() + 1,
{
    let d = format.deeper();
    let all = entries_text(entries, d, entries.len() as int);
    let tail = format.newline() + seq!['}'];
    assert(object_text(entries, format) =~= seq!['{'] + (all + tail));
    lemma_at_split(q, seq!['{'], all + tail);
    lemma_at_char(q, seq!['{'], 0);
    assert(bumps(q, 0) == q);
    let p1 = bumps(q, 1);
    lemma_at_split(p1, all, tail);
    lemma_bumps_add(q, 1, all.len());
    lemma_entries_at(p1, entries, d, k);
    if k < entries.len() {
        let before = entries_text(entries, d, k);
        let sep = d.separator(k as usize);
        let key = escaped(entries[k].0);
        let value = json_text(entries[k].1, d);
        lemma_bumps_add(q, 1, before.len());
        let p2 = bumps(q, (1 + before.len()) as nat);
        lemma_at_split(p2, sep, entry_text(entries[k], d));
        lemma_bumps_add(q, (1 + before.len()) as nat, sep.len());
        let p3 = bumps(q, key_offset(entries, format, k) as nat);
        lemma_at_split(p3, key, d.colon() + value);
        lemma_bumps_add(q, key_offset(entries, format, k) as nat, key.len());
        let p4 = bumps(q, (key_offset(entries, format, k) + key.len()) as nat);
        lemma_at_split(p4, d.colon(), value);
        lemma_bumps_add(q, (key_offset(entries, format, k) + key.len()) as nat, d.colon().len());
    }
}

/// In an object whose entries are in order, binding the key of the entry
/// at place `k` after the entries before it puts it at the end.
pub proof fn lemma_with_entry_appends(entries: Seq<(Seq<char>, JsonView)>, k: int)
    requires
        sorted(entries),
        0 <= k < entries.len(),
    ensures
        with_entry(entries.take(k), entries[k].0, entries[k].1) == entries.take(k + 1),
{
    let before = entries.take(k);
    assert forall|j: int| 0 <= j < k implies crate::json::key::key_lt(
        before[j].0,
        entries[k].0,
    ) by {
        assert(before[j] == entries[j]);
    }
    lemma_rank(before, entries[k].0, k);
    assert(before.insert(k, entries[k]) =~= entries.take(k + 1));
}

/// An object is read back from the entry at place `k` on: where the
/// entries before it have been read, the parser that stands at the key of
/// the entry reads the key, the colon and the first event of the value,
/// and the builder makes the whole object of what follows.
pub proof fn lemma_read_entry(
    q: ParserView,
    entries: Seq<(Seq<char>, JsonView)>,
    format: EncodingFormat,
    k: int,
    state: ParserState,
    first: bool,
)
    requires
        readable(JsonView::Object(entries)),
        JsonView::Object(entries).wf(),
        at(q, object_text(entries, format)),
        0 <= k < entries.len(),
    ensures
        build_object_from(
            entry_start(q, entries, format, k, state).parse_object(first).0,
            Some(entry_start(q, entries, format, k, state).parse_object(first).1),
            entries.take(k),
        ) == (
            finished(q, object_text(entries, format).len()),
            Ok::<JsonView, ParserError>(JsonView::Object(entries)),
        ),
    decreases JsonView::Object(entries), 0int, 2 * (entries.len() - k),
{
    let d = format.deeper();
    let key = entries[k].0;
    let value = entries[k].1;
    let text = json_text(value, d);
    let e = entry_start(q, entries, format, k, state);
    let ko = key_offset(entries, format, k);
    let vo = value_offset(entries, format, k);
    lemma_object_places(q, entries, format, k);
    lemma_object_places(q, entries, format, k + 1);
    lemma_bumps(q, ko as nat);
    // The key.
    lemma_at_char(bumps(q, ko as nat), escaped(key), 0);
    assert(bumps(bumps(q, ko as nat), 0) == bumps(q, ko as nat));
    assert(at(e, escaped(key)));
    lemma_parse_str(e, key);
    let after_key = bumps(e, escaped(key).len());
    lemma_bumps_with_state(bumps(q, ko as nat), state, escaped(key).len());
    lemma_bumps_add(q, ko as nat, escaped(key).len());
    lemma_bumps(q, (ko + escaped(key).len()) as nat);
    // The colon.
    let colon_at = bumps(q, (ko + escaped(key).len()) as nat);
    lemma_at_char(colon_at, d.colon(), 0);
    assert(bumps(colon_at, 0) == colon_at);
    assert(after_key == colon_at.with_state(state));
    assert(after_key.ch() == Some(':'));
    assert(after_key.skip_whitespace() == after_key);
    let top = StackElementView::Key(key);
    let entered = after_key.with_stack(after_key.stack.push(top)).bump();
    lemma_bumps_next(q, (ko + escaped(key).len()) as nat);
    lemma_bumps(q, (ko + escaped(key).len() + 1) as nat);
    lemma_bumps(q, vo as nat);
    assert(entered == bumps(q, (ko + escaped(key).len() + 1) as nat).with_stack(
        q.stack.push(top),
    ).with_state(state));
    let v = value_start(q, entries, format, k, state);
    lemma_text_starts(value, d);
    lemma_at_char(bumps(q, vo as nat), text, 0);
    assert(bumps(bumps(q, vo as nat), 0) == bumps(q, vo as nat));
    assert(v.ch() == Some(text[0]));
    assert(!v.at_whitespace());
    assert(v.skip_whitespace() == v);
    if d.is_pretty() {
        lemma_at_char(colon_at, d.colon(), 1);
        lemma_bumps_add(q, (ko + escaped(key).len()) as nat, 1);
        lemma_bumps_next(q, (ko + escaped(key).len() + 1) as nat);
        assert(entered.ch() == Some(' '));
        assert(entered.bump() == v);
        assert(entered.skip_whitespace() == v);
    } else {
        assert(entered == v);
        assert(entered.skip_whitespace() == v);
    }
    assert(e.parse_object(first) == v.parse_value_then(ParserState::ParseObjectComma));
    // The value.
    lemma_bumps_add(q, vo as nat, text.len());
    lemma_bumps_with_stack(bumps(q, vo as nat), q.stack.push(top), text.len());
    lemma_bumps_with_state(bumps(q, vo as nat).with_stack(q.stack.push(top)), state, text.len());
    let after_text = bumps(q, (1 + entries_text(entries, d, k + 1).len()) as nat);
    assert(bumps(v, text.len()) == after_text.with_stack(q.stack.push(top)).with_state(state));
    if k + 1 < entries.len() {
        lemma_separator_ends_number(after_text, d, k + 1, Seq::empty());
        assert(d.separator((k + 1) as usize) + Seq::<char>::empty() =~= d.separator(
            (k + 1) as usize,
        ));
    } else {
        lemma_closing_ends_number(after_text, format, '}');
    }
    assert(ends_number(bumps(v, text.len())));
    assert(at(v, text));
    lemma_read_value(v, value, d);
    let (first_p, token) = v.parse_value_then(ParserState::ParseObjectComma);
    assert(state_after_value(v.stack) == ParserState::ParseObjectComma);
    lemma_build_value_reads_on(first_p, Some(token));
    crate::json::progress::lemma_parse_value(v);
    assert(first_p.stack == q.stack.push(top));
    let after = finished(v, text.len());
    assert(after == entry_end(q, entries, format, k));
    assert(goes_on(first_p, Some(token), after));
    lemma_with_entry_appends(entries, k);
    lemma_read_entries(q, entries, format, k);
}

/// An object is read back from the end of the entry at place `k` on: the
/// parser reads the comma and the next entry, or the closing brace, and
/// the builder makes the whole object of what follows.
pub proof fn lemma_read_entries(
    q: ParserView,
    entries: Seq<(Seq<char>, JsonView)>,
    format: EncodingFormat,
    k: int,
)
    requires
        readable(JsonView::Object(entries)),
        JsonView::Object(entries).wf(),
        at(q, object_text(entries, format)),
        0 <= k < entries.len(),
    ensures
        build_object_from(
            entry_end(q, entries, format, k).step().0,
            entry_end(q, entries, format, k).step().1,
            entries.take(k + 1),
        ) == (
            finished(q, object_text(entries, format).len()),
            Ok::<JsonView, ParserError>(JsonView::Object(entries)),
        ),
    decreases JsonView::Object(entries), 0int, 2 * (entries.len() - k) - 1,
{
    let d = format.deeper();
    let b = entry_end(q, entries, format, k);
    let n = 1 + entries_text(entries, d, k + 1).len();
    let top = StackElementView::Key(entries[k].0);
    let at_end = bumps(q, n as nat);
    lemma_bumps(q, n as nat);
    lemma_object_places(q, entries, format, k + 1);
    reveal(ParserView::step);
    assert(b.stack.drop_last() =~= q.stack);
    assert(b.ch() == at_end.ch());
    if k + 1 < entries.len() {
        lemma_separator_ends_number(at_end, d, k + 1, Seq::empty());
        assert(d.separator((k + 1) as usize) + Seq::<char>::empty() =~= d.separator(
            (k + 1) as usize,
        ));
        assert(b.skip_whitespace() == b);
        let left = b.with_stack(q.stack);
        let moved = left.with_state(ParserState::ParseObject(false)).bump();
        let sep = d.separator((k + 1) as usize);
        assert(sep =~= seq![','] + d.newline());
        lemma_at_split(at_end, seq![','], d.newline());
        lemma_bumps_next(q, n as nat);
        lemma_bumps_add(q, n as nat, 1);
        lemma_bumps_add(q, (n + 1) as nat, d.newline().len());
        lemma_bumps_add(at_end, 1, d.newline().len());
        let next = entry_start(q, entries, format, k + 1, ParserState::ParseObject(false));
        lemma_bumps(q, (n + sep.len()) as nat);
        lemma_at_char(bumps(q, (n + sep.len()) as nat), escaped(entries[k + 1].0), 0);
        assert(bumps(bumps(q, (n + sep.len()) as nat), 0) == bumps(q, (n + sep.len()) as nat));
        lemma_newline_blank(d);
        assert(moved == bumps(q, (n + 1) as nat).with_state(ParserState::ParseObject(false)));
        lemma_bumps(q, (n + 1) as nat);
        lemma_bumps_with_state(
            bumps(q, (n + 1) as nat),
            ParserState::ParseObject(false),
            d.newline().len(),
        );
        assert(at(moved, d.newline()));
        assert(bumps(moved, d.newline().len()) == next);
        lemma_skip_blank(moved, d.newline());
        assert(moved.skip_whitespace() == next);
        assert(b.step() == (
            next.parse_object(false).0,
            Some(next.parse_object(false).1),
        ));
        lemma_read_entry(q, entries, format, k + 1, ParserState::ParseObject(false), false);
    } else {
        lemma_closing_ends_number(at_end, format, '}');
        let close = bumps(at_end, format.newline().len());
        lemma_bumps_with_stack(at_end, q.stack.push(top), format.newline().len());
        lemma_bumps_with_state(
            at_end.with_stack(q.stack.push(top)),
            ParserState::ParseObjectComma,
            format.newline().len(),
        );
        lemma_newline_blank(format);
        lemma_at_split(at_end, format.newline(), seq!['}']);
        assert(at(b, format.newline()));
        let here = bumps(b, format.newline().len());
        assert(here == close.with_stack(q.stack.push(top)).with_state(
            ParserState::ParseObjectComma,
        ));
        assert(here.ch() == close.ch());
        lemma_skip_blank(b, format.newline());
        assert(b.skip_whitespace() == here);
        lemma_bumps_add(q, n as nat, format.newline().len());
        lemma_bumps_next(q, (n + format.newline().len()) as nat);
        lemma_bumps_with_state(q, state_after_value(q.stack), object_text(entries, format).len());
        assert(here.stack.drop_last() =~= q.stack);
        let m = (n + format.newline().len()) as nat;
        lemma_bumps(q, m);
        assert(close == bumps(q, m));
        assert(here.with_stack(q.stack) == bumps(q, m).with_state(ParserState::ParseObjectComma));
        assert(bumps(q, m).with_state(state_after_value(q.stack)).bump() == bumps(
            q,
            m,
        ).bump().with_state(state_after_value(q.stack)));
        assert(here.with_stack(q.stack).close() == finished(
            q,
            object_text(entries, format).len(),
        ));
        assert(b.step() == (
            finished(q, object_text(entries, format).len()),
            Some(JsonEventView::ObjectEnd),
        ));
        assert(entries.take(k + 1) =~= entries);
    }
}

/// **What is written is read back.** The text of a value, in any layout,
/// denotes that value: the value is one that a document can denote, which
/// leaves out numbers that are not finite and signed integers that are
/// not negative, its objects have their entries in order, and the text is
/// short enough to be read.
pub proof fn lemma_round_trip(v: JsonView, format: EncodingFormat)
    requires
        readable(v),
        v.wf(),
        json_text(v, format).len() + 3 <= usize::MAX,
    ensures
        parse_document(json_text(v, format)) == Ok::<JsonView, ParserError>(v),
{
    let text = json_text(v, format);
    let q = ParserView::start(text);
    assert(text.subrange(0, text.len() as int) =~= text);
    assert(at(q, text));
    lemma_bumps(q, text.len());
    lemma_text_starts(v, format);
    lemma_at_char(q, text, 0);
    assert(bumps(q, 0) == q);
    lemma_read_value(q, v, format);
    reveal(ParserView::step);
    assert(q.skip_whitespace() == q);
    assert(q.step() == (
        q.parse_value_then(ParserState::ParseBeforeFinish).0,
        Some(q.parse_value_then(ParserState::ParseBeforeFinish).1),
    ));
    let end = finished(q, text.len());
    assert(end.eof());
    assert(end.skip_whitespace() == end);
    assert(end.step() == (end.with_state(ParserState::ParseFinished), None::<JsonEventView>));
}

/// **Printing again changes nothing.** The text of a value is read as a
/// value whose text, in the same layout, is the same text: what has been
/// indented with a width once comes out the same when it is read and
/// indented with that width again.
pub proof fn lemma_reprint(v: JsonView, format: EncodingFormat)
    requires
        readable(v),
        v.wf(),
        json_text(v, format).len() + 3 <= usize::MAX,
    ensures
        parse_document(json_text(v, format)) is Ok,
        json_text(parse_document(json_text(v, format))->Ok_0, format) == json_text(v, format),
{
    lemma_round_trip(v, format);
}

/// **A text in one layout is read as the text in another.** What has been
/// written compact and what has been written indented denote the same
/// value.
pub proof fn lemma_layouts_agree(v: JsonView, a: EncodingFormat, b: EncodingFormat)
    requires
        readable(v),
        v.wf(),
        json_text(v, a).len() + 3 <= usize::MAX,
        json_text(v, b).len() + 3 <= usize::MAX,
    ensures
        parse_document(json_text(v, a)) == parse_document(json_text(v, b)),
{
    lemma_round_trip(v, a);
    lemma_round_trip(v, b);
}

impl Json {
    /// Whether the value is one that a document can denote: its
    /// floating-point numbers are finite and its signed integers negative.
    /// Every value is well formed, so the text of one that a document can
    /// denote is read back as that value.
    pub fn is_readable(&self) -> (r: bool)
        ensures
            r == readable(self@),
            self@.wf(),
        decreases self,
    {
        match self {
            Json::I64(n) => *n < 0,
            Json::F64(f) => match f {
                Float::Finite(d) => {
                    let _ = d.fraction();
                    true
                },
                _ => false,
            },
            Json::Array(items) => {
                proof {
                    lemma_items_view(items@);
                }
                let mut all = true;
                let mut i: usize = 0;
                while i < items.len()
                    invariant
                        i <= items.len(),
                        decreases_to!(*self => *items),
                        self@ == JsonView::Array(items_view(items@)),
                        items_view(items@).len() == items@.len(),
                        forall|j: int|
                            0 <= j < items@.len() ==> (#[trigger] items_view(items@)[j])
                                == items@[j]@,
                        forall|j: int| 0 <= j < i ==> (#[trigger] items_view(items@)[j]).wf(),
                        all == (forall|j: int|
                            0 <= j < i ==> readable(#[trigger] items_view(items@)[j])),
                    decreases items.len() - i,
                {
                    proof {
                        vstd::std_specs::vec::axiom_vec_index_decreases(*items, i as int);
                    }
                    let one = items[i].is_readable();
                    proof {
                        assert(items_view(items@)[i as int] == items@[i as int]@);
                    }
                    all = all && one;
                    i += 1;
                }
                all
            },
            Json::Object(o) => {
                let n = o.len();
                let mut all = true;
                let mut i: usize = 0;
                while i < n
                    invariant
                        i <= n,
                        n == o@.len(),
                        sorted(o@),
                        self@ == JsonView::Object(o@),
                        decreases_to!(*self => *o),
                        forall|j: int| 0 <= j < i ==> (#[trigger] o@[j]).1.wf(),
                        all == (forall|j: int| 0 <= j < i ==> readable((#[trigger] o@[j]).1)),
                    decreases n - i,
                {
                    let value = o.value_at(i);
                    let one = value.is_readable();
                    all = all && one;
                    i += 1;
                }
                all
            },
            _ => true,
        }
    }
}

} // verus!
