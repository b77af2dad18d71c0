//! The parser only ever reads forward, and every value costs it input.

use vstd::prelude::*;
use crate::json::event::JsonEventView;
use crate::json::parser::ParserView;

verus! {

/// Whether the event is the first of a value: a scalar, or the start of a
/// container.
pub open spec fn starts_value(event: Option<JsonEventView>) -> bool {
    match event {
        None => false,
        Some(JsonEventView::Error(_)) => false,
        Some(JsonEventView::ArrayEnd) => false,
        Some(JsonEventView::ObjectEnd) => false,
        Some(_) => true,
    }
}

/// White space is skipped forward, and nothing else changes.
pub proof fn lemma_skip_whitespace(p: ParserView)
    ensures
        p.skip_whitespace().extends(p),
        !p.skip_whitespace().at_whitespace(),
    decreases p.remaining(),
{
    if p.at_whitespace() {
        lemma_skip_whitespace(p.bump());
    }
}

/// Digits are read forward.
pub proof fn lemma_parse_digits(p: ParserView, accum: u64)
    ensures
        p.parse_digits(accum).0.extends(p),
    decreases p.remaining(),
{
    if p.ch() is Some && crate::json::text::is_digit(p.ch()->0) {
        let next = accum * 10 + (p.ch()->0 as u32 - '0' as u32);
        if next <= u64::MAX {
            lemma_parse_digits(p.bump(), next as u64);
        }
    }
}

/// The digits of a fraction are read forward.
pub proof fn lemma_parse_fraction_digits(p: ParserView, digits: Seq<u8>)
    ensures
        p.parse_fraction_digits(digits).0.extends(p),
    decreases p.remaining(),
{
    if p.ch() is Some && crate::json::text::is_digit(p.ch()->0) {
        lemma_parse_fraction_digits(
            p.bump(),
            digits.push((p.ch()->0 as u32 - '0' as u32) as u8),
        );
    }
}

/// The digits of an exponent are read forward.
pub proof fn lemma_parse_exponent_digits(p: ParserView, accum: u64)
    ensures
        p.parse_exponent_digits(accum).0.extends(p),
    decreases p.remaining(),
{
    if p.ch() is Some && crate::json::text::is_digit(p.ch()->0) {
        let next = accum * 10 + (p.ch()->0 as u32 - '0' as u32);
        lemma_parse_exponent_digits(
            p.bump(),
            if next > u64::MAX {
                u64::MAX
            } else {
                next as u64
            },
        );
    }
}

/// A number is read forward; what is read is a number or an error, and a
/// number takes at least one character.
pub proof fn lemma_parse_number(p: ParserView)
    ensures
        p.parse_number().0.extends(p),
        !(p.parse_number().1 is Error) ==> p.pos < p.parse_number().0.pos,
        !(p.parse_number().1 is ArrayStart),
        !(p.parse_number().1 is ObjectStart),
        !(p.parse_number().1 is ArrayEnd),
        !(p.parse_number().1 is ObjectEnd),
{
    let first = if p.ch_is('-') {
        p.bump()
    } else {
        p
    };
    lemma_parse_digits(first, 0);
    if first.ch() is Some && crate::json::text::is_digit(first.ch()->0) {
        lemma_parse_digits(first.bump(), (first.ch()->0 as u32 - '0' as u32) as u64);
    }
    let (after_int, integer) = first.parse_u64();
    if integer is Ok {
        if after_int.ch_is('.') {
            lemma_parse_fraction_digits(after_int.bump(), Seq::empty());
        }
        let after_frac = if after_int.ch_is('.') {
            after_int.parse_decimal().0
        } else {
            after_int
        };
        if after_frac.ch_is('e') || after_frac.ch_is('E') {
            let next = after_frac.bump();
            let first_digit = if next.ch_is('+') || next.ch_is('-') {
                next.bump()
            } else {
                next
            };
            lemma_parse_exponent_digits(first_digit, 0);
        }
    }
}

/// Four hexadecimal digits are read forward.
pub proof fn lemma_decode_hex_escape(p: ParserView)
    ensures
        p.decode_hex_escape().0.extends(p),
{
    reveal(ParserView::decode_hex_escape);
}

/// The digits of an escaped character are read forward.
pub proof fn lemma_parse_unicode_escape(p: ParserView)
    ensures
        p.parse_unicode_escape().0.extends(p),
{
    reveal(ParserView::parse_unicode_escape);
    lemma_decode_hex_escape(p);
    let (p1, r1) = p.decode_hex_escape();
    lemma_decode_hex_escape(p1.bump().bump());
}

/// An escape is read forward.
pub proof fn lemma_parse_escape(p: ParserView)
    ensures
        p.parse_escape().0.extends(p),
{
    reveal(ParserView::parse_escape);
    lemma_parse_unicode_escape(p);
}

/// A string is read forward.
pub proof fn lemma_parse_str_from(p: ParserView, res: Seq<char>)
    ensures
        p.parse_str_from(res).0.extends(p),
        p.parse_str_from(res).0.pos > p.pos,
    decreases p.remaining(),
{
    let next = p.bump();
    if next.ch() is Some {
        let c = next.ch()->0;
        if c == '\\' {
            let esc = next.bump();
            if !esc.eof() {
                let (last, unescaped) = esc.parse_escape();
                lemma_parse_escape(esc);
                if unescaped is Ok {
                    lemma_parse_str_from(last, res.push(unescaped->Ok_0));
                }
            }
        } else if c == '"' {
        } else if crate::json::text::is_control(c) {
        } else {
            lemma_parse_str_from(next, res.push(c));
        }
    }
}

/// A word is read forward; what is read is its value or an error.
pub proof fn lemma_parse_ident(p: ParserView, ident: Seq<char>, value: JsonEventView)
    ensures
        p.parse_ident(ident, value).0.extends(p),
        p.parse_ident(ident, value).0.pos > p.pos,
        p.parse_ident(ident, value).1 == value || p.parse_ident(ident, value).1 is Error,
    decreases ident.len(),
{
    let next = p.bump();
    if ident.len() > 0 && next.ch_is(ident[0]) {
        lemma_parse_ident(next, ident.drop_first(), value);
    }
}

/// The first event of a value is read forward, in the same place of the
/// document; unless it is an error, it takes at least one character.
pub proof fn lemma_parse_value(p: ParserView)
    ensures
        p.parse_value().0.reads_on(p),
        p.parse_value().0.stack == p.stack,
        !(p.parse_value().1 is Error) ==> p.pos < p.parse_value().0.pos && p.pos < p.input.len(),
        !(p.parse_value().1 is ArrayEnd),
        !(p.parse_value().1 is ObjectEnd),
{
    lemma_parse_ident(p, seq!['u', 'l', 'l'], JsonEventView::NullValue);
    lemma_parse_ident(p, seq!['r', 'u', 'e'], JsonEventView::BooleanValue(true));
    lemma_parse_ident(p, seq!['a', 'l', 's', 'e'], JsonEventView::BooleanValue(false));
    lemma_parse_number(p);
    lemma_parse_str_from(p, Seq::empty());
}

/// An element of an array is read forward.
pub proof fn lemma_parse_array(p: ParserView, first: bool)
    ensures
        p.parse_array(first).0.reads_on(p),
        starts_value(Some(p.parse_array(first).1)) ==> p.pos < p.parse_array(first).0.pos
            && p.pos < p.input.len(),
{
    if !p.ch_is(']') {
        let entered = if first {
            p.with_stack(p.stack.push(crate::json::stack::StackElementView::Index(0)))
        } else {
            p
        };
        lemma_parse_value(entered);
    }
}

/// An entry of an object is read forward.
pub proof fn lemma_parse_object(p: ParserView, first: bool)
    ensures
        p.parse_object(first).0.reads_on(p),
        starts_value(Some(p.parse_object(first).1)) ==> p.pos < p.parse_object(first).0.pos
            && p.pos < p.input.len(),
{
    if p.ch_is('"') {
        lemma_parse_str_from(p, Seq::empty());
        let (after_key, key) = p.parse_str();
        if key is Ok {
            lemma_skip_whitespace(after_key);
            let at_colon = after_key.skip_whitespace();
            if at_colon.ch_is(':') {
                let entered = at_colon.with_stack(
                    at_colon.stack.push(crate::json::stack::StackElementView::Key(key->Ok_0)),
                ).bump();
                lemma_skip_whitespace(entered);
                lemma_parse_value(entered.skip_whitespace());
            }
        }
    }
}

/// The parser reads forward up to the next event.
pub proof fn lemma_parse(p: ParserView)
    ensures
        p.parse().0.reads_on(p),
        starts_value(Some(p.parse().1)) ==> p.parse().0.remaining() < p.remaining(),
{
    lemma_skip_whitespace(p);
    let here = p.skip_whitespace();
    match here.state {
        crate::json::parser::ParserState::ParseStart => {
            lemma_parse_value(here);
        },
        crate::json::parser::ParserState::ParseArray(first) => {
            lemma_parse_array(here, first);
        },
        crate::json::parser::ParserState::ParseArrayComma => {
            let (next, event) = here.parse_array_comma_or_end();
            if event is None {
                lemma_skip_whitespace(next);
                lemma_parse_array(next.skip_whitespace(), false);
            }
        },
        crate::json::parser::ParserState::ParseObject(first) => {
            lemma_parse_object(here, first);
        },
        crate::json::parser::ParserState::ParseObjectComma => {
            let left = here.with_stack(here.stack.drop_last());
            if left.ch_is(',') {
                let next = left.with_state(
                    crate::json::parser::ParserState::ParseObject(false),
                ).bump();
                lemma_skip_whitespace(next);
                lemma_parse_object(next.skip_whitespace(), false);
            }
        },
        _ => {},
    }
}

/// A step reads forward: the input stays, nothing is read twice, and an
/// event that starts a value leaves less input than there was. So the
/// events of a document are finitely many.
pub proof fn lemma_step_progress(p: ParserView)
    ensures
        p.step().0.reads_on(p),
        p.step().0.remaining() <= p.remaining(),
        starts_value(p.step().1) ==> p.step().0.remaining() < p.remaining(),
{
    reveal(ParserView::step);
    lemma_skip_whitespace(p);
    lemma_parse(p);
}

/// **A finished parser stays finished.** Once the parser has finished, a
/// step gives no event and changes nothing.
pub proof fn lemma_finished_is_final(p: ParserView)
    requires
        p.state == crate::json::parser::ParserState::ParseFinished,
    ensures
        p.step() == (p, None::<JsonEventView>),
{
    reveal(ParserView::step);
}

/// **An error is the last event.** The step that gives an error leaves
/// the parser finished, so no event follows an error.
pub proof fn lemma_error_is_last(p: ParserView)
    requires
        p.step().1 is Some,
        p.step().1->0 is Error,
    ensures
        p.step().0.state == crate::json::parser::ParserState::ParseFinished,
        p.step().0.step() == (p.step().0, None::<JsonEventView>),
{
    reveal(ParserView::step);
}

} // verus!
