//! The streaming parser: a state machine over the characters of a document
//! that hands out one event at a time.

use vstd::prelude::*;
use crate::json::error::{ErrorCode, ParserError};
use crate::json::event::{event_view, JsonEvent, JsonEventView};
use crate::json::float::{Decimal, DecimalView, Float, FloatView};
use crate::json::stack::{SemiPubMethods, Stack, StackElementView, next_index};
use crate::json::text::{char_from_u32, chars_of, is_control, is_digit, push_char};

verus! {

/// Where the parser stands between two events.
#[derive(Clone, Copy, PartialEq, Eq, Debug, Structural)]
pub enum ParserState {
    /// Parse a value in an array, true means first element.
    ParseArray(bool),
    /// Parse ',' or ']' after an element in an array.
    ParseArrayComma,
    /// Parse a key:value in an object, true means first element.
    ParseObject(bool),
    /// Parse ',' or ']' after an element in an object.
    ParseObjectComma,
    /// Initial state.
    ParseStart,
    /// Expecting the stream to end.
    ParseBeforeFinish,
    /// Parsing can't continue.
    ParseFinished,
}

/// The number that a hexadecimal digit stands for.
pub open spec fn hex_value(c: char) -> Option<u16> {
    if '0' <= c && c <= '9' {
        Some((c as u32 - '0' as u32) as u16)
    } else if 'a' <= c && c <= 'f' {
        Some((10 + c as u32 - 'a' as u32) as u16)
    } else if 'A' <= c && c <= 'F' {
        Some((10 + c as u32 - 'A' as u32) as u16)
    } else {
        None
    }
}

/// The character that a pair of UTF-16 surrogates stands for.
pub open spec fn surrogate_pair(lead: u16, trail: u16) -> char
    recommends
        0xD800 <= lead <= 0xDBFF,
        0xDC00 <= trail <= 0xDFFF,
{
    ((lead - 0xD800) * 0x400 + (trail - 0xDC00) + 0x1_0000) as char
}

/// The state that follows a value: what is expected next depends on what
/// encloses the value, which the innermost element of the stack tells.
pub open spec fn state_after_value(stack: Seq<StackElementView>) -> ParserState {
    if stack.len() == 0 {
        ParserState::ParseBeforeFinish
    } else if stack.last() is Index {
        ParserState::ParseArrayComma
    } else {
        ParserState::ParseObjectComma
    }
}

/// The state that follows the first event of a value: inside a container
/// that has just been opened, finished after an error, or `otherwise`.
pub open spec fn state_from_event(event: JsonEventView, otherwise: ParserState) -> ParserState {
    match event {
        JsonEventView::Error(_) => ParserState::ParseFinished,
        JsonEventView::ArrayStart => ParserState::ParseArray(true),
        JsonEventView::ObjectStart => ParserState::ParseObject(true),
        _ => otherwise,
    }
}

/// The mathematical value of a [`Parser`]: the whole input, how far it has
/// been read, and where in the document that is.
pub struct ParserView {
    /// The characters of the document.
    pub input: Seq<char>,
    /// The place of the current character; the length of the input, or
    /// more, once the input has ended.
    pub pos: int,
    /// The line of the current character, counted from one.
    pub line: int,
    /// The column of the current character, counted from one.
    pub col: int,
    /// The path from the root of the document to the current value.
    pub stack: Seq<StackElementView>,
    /// What the parser expects next.
    pub state: ParserState,
}

impl ParserView {
    /// The parser before the first event: at the first character of `input`.
    pub open spec fn start(input: Seq<char>) -> ParserView {
        ParserView {
            input,
            pos: 0,
            line: if input.len() > 0 && input[0] == '\n' {
                2
            } else {
                1
            },
            col: 1,
            stack: Seq::empty(),
            state: ParserState::ParseStart,
        }
    }

    /// The current character, if the input has not ended.
    pub open spec fn ch(self) -> Option<char> {
        if 0 <= self.pos < self.input.len() {
            Some(self.input[self.pos])
        } else {
            None
        }
    }

    /// Whether the input has ended.
    pub open spec fn eof(self) -> bool {
        self.ch() is None
    }

    /// The current character, or the character zero at the end of input.
    pub open spec fn ch_or_null(self) -> char {
        match self.ch() {
            Some(c) => c,
            None => '\x00',
        }
    }

    /// Whether the current character is `c`.
    pub open spec fn ch_is(self, c: char) -> bool {
        self.ch() == Some(c)
    }

    /// The number of characters that are left, the current one included.
    pub open spec fn remaining(self) -> int {
        if self.pos < self.input.len() {
            self.input.len() - self.pos
        } else {
            0
        }
    }

    /// The parser at the next character. A line feed starts a new line and
    /// stands in its first column.
    pub open spec fn bump(self) -> ParserView {
        let next = ParserView { pos: self.pos + 1, ..self };
        if next.ch_is('\n') {
            ParserView { line: self.line + 1, col: 1, ..next }
        } else {
            ParserView { col: self.col + 1, ..next }
        }
    }

    /// The error `reason` at the current character.
    pub open spec fn error(self, reason: ErrorCode) -> ParserError {
        ParserError::SyntaxError(reason, self.line as usize, self.col as usize)
    }

    /// The parser with another state.
    pub open spec fn with_state(self, state: ParserState) -> ParserView {
        ParserView { state, ..self }
    }

    /// The parser with another stack.
    pub open spec fn with_stack(self, stack: Seq<StackElementView>) -> ParserView {
        ParserView { stack, ..self }
    }

    /// The parser stopped by the error `reason` at the current character,
    /// and the event that reports it.
    pub open spec fn error_event(self, reason: ErrorCode) -> (ParserView, JsonEventView) {
        (self.with_state(ParserState::ParseFinished), JsonEventView::Error(self.error(reason)))
    }

    /// Whether the current character is a space, a line feed, a tab or a
    /// carriage return.
    pub open spec fn at_whitespace(self) -> bool {
        self.ch_is(' ') || self.ch_is('\n') || self.ch_is('\t') || self.ch_is('\r')
    }

    /// The parser at the first character from here on that is no white
    /// space.
    pub open spec fn skip_whitespace(self) -> ParserView
        decreases self.remaining(),
    {
        if self.at_whitespace() {
            self.bump().skip_whitespace()
        } else {
            self
        }
    }

    /// Reads decimal digits into the number `accum`, up to the first
    /// character that is no digit; a number above `u64::MAX` is an error at
    /// the digit that makes it so.
    pub open spec fn parse_digits(self, accum: u64) -> (ParserView, Result<u64, ParserError>)
        decreases self.remaining(),
    {
        match self.ch() {
            Some(c) if is_digit(c) => {
                let next = accum * 10 + (c as u32 - '0' as u32);
                if next > u64::MAX {
                    (self, Err(self.error(ErrorCode::InvalidNumber)))
                } else {
                    self.bump().parse_digits(next as u64)
                }
            },
            _ => (self, Ok(accum)),
        }
    }

    /// Reads the integer part of a number: a single zero, or digits that
    /// start with another digit.
    pub open spec fn parse_u64(self) -> (ParserView, Result<u64, ParserError>) {
        let c = self.ch_or_null();
        if c == '0' {
            let next = self.bump();
            if is_digit(next.ch_or_null()) {
                (next, Err(next.error(ErrorCode::InvalidNumber)))
            } else {
                (next, Ok(0))
            }
        } else if is_digit(c) {
            self.parse_digits(0)
        } else {
            (self, Err(self.error(ErrorCode::InvalidNumber)))
        }
    }

    /// Reads digits after `digits`, up to the first character that is none.
    pub open spec fn parse_fraction_digits(self, digits: Seq<u8>) -> (ParserView, Seq<u8>)
        decreases self.remaining(),
    {
        match self.ch() {
            Some(c) if is_digit(c) => self.bump().parse_fraction_digits(
                digits.push((c as u32 - '0' as u32) as u8),
            ),
            _ => (self, digits),
        }
    }

    /// Reads the fraction of a number, from the point on: at least one
    /// digit.
    pub open spec fn parse_decimal(self) -> (ParserView, Result<Seq<u8>, ParserError>) {
        let next = self.bump();
        if is_digit(next.ch_or_null()) {
            let (last, digits) = next.parse_fraction_digits(Seq::empty());
            (last, Ok(digits))
        } else {
            (next, Err(next.error(ErrorCode::InvalidNumber)))
        }
    }

    /// Reads the digits of an exponent into `accum`; an exponent above
    /// `u64::MAX` is read as `u64::MAX`.
    pub open spec fn parse_exponent_digits(self, accum: u64) -> (ParserView, u64)
        decreases self.remaining(),
    {
        match self.ch() {
            Some(c) if is_digit(c) => {
                let next = accum * 10 + (c as u32 - '0' as u32);
                self.bump().parse_exponent_digits(
                    if next > u64::MAX {
                        u64::MAX
                    } else {
                        next as u64
                    },
                )
            },
            _ => (self, accum),
        }
    }

    /// Reads the exponent of a number, from the `e` on: a sign or none,
    /// then at least one digit. The result is the sign, true for minus, and
    /// the magnitude.
    pub open spec fn parse_exponent(self) -> (ParserView, Result<(bool, u64), ParserError>) {
        let next = self.bump();
        let negative = next.ch_is('-');
        let first = if next.ch_is('+') || next.ch_is('-') {
            next.bump()
        } else {
            next
        };
        if is_digit(first.ch_or_null()) {
            let (last, exponent) = first.parse_exponent_digits(0);
            (last, Ok((negative, exponent)))
        } else {
            (first, Err(first.error(ErrorCode::InvalidNumber)))
        }
    }

    /// Whether a fraction or an exponent starts at the current character.
    pub open spec fn at_fraction_or_exponent(self) -> bool {
        self.ch_is('.') || self.ch_is('e') || self.ch_is('E')
    }

    /// Reads a number. With a fraction or an exponent it is a decimal;
    /// without, an unsigned integer, or a signed one after a minus sign,
    /// where it is not below `i64::MIN`.
    pub open spec fn parse_number(self) -> (ParserView, JsonEventView) {
        let negative = self.ch_is('-');
        let first = if negative {
            self.bump()
        } else {
            self
        };
        let (after_int, integer) = first.parse_u64();
        match integer {
            Err(e) => (after_int, JsonEventView::Error(e)),
            Ok(integer) => {
                if after_int.at_fraction_or_exponent() {
                    let (after_frac, fraction) = if after_int.ch_is('.') {
                        after_int.parse_decimal()
                    } else {
                        (after_int, Ok(seq![0u8]))
                    };
                    match fraction {
                        Err(e) => (after_frac, JsonEventView::Error(e)),
                        Ok(fraction) => {
                            let (after_exp, exponent) = if after_frac.ch_is('e')
                                || after_frac.ch_is('E') {
                                after_frac.parse_exponent()
                            } else {
                                (after_frac, Ok((false, 0u64)))
                            };
                            match exponent {
                                Err(e) => (after_exp, JsonEventView::Error(e)),
                                Ok((exp_negative, exponent)) => (
                                    after_exp,
                                    JsonEventView::F64Value(
                                        FloatView::Finite(
                                            DecimalView {
                                                negative,
                                                integer,
                                                fraction,
                                                exp_negative,
                                                exponent,
                                            },
                                        ),
                                    ),
                                ),
                            }
                        },
                    }
                } else if negative {
                    if integer > 0x8000_0000_0000_0000u64 {
                        (after_int, JsonEventView::Error(after_int.error(ErrorCode::InvalidNumber)))
                    } else {
                        (after_int, JsonEventView::I64Value((-(integer as int)) as i64))
                    }
                } else {
                    (after_int, JsonEventView::U64Value(integer))
                }
            },
        }
    }

    /// Reads one hexadecimal digit after the current character and adds it
    /// to `n`.
    pub open spec fn hex_step(self, n: u16) -> (ParserView, Result<u16, ParserError>) {
        let next = self.bump();
        match hex_value(next.ch_or_null()) {
            Some(d) => (next, Ok((n * 16 + d) as u16)),
            None => (next, Err(next.error(ErrorCode::InvalidEscape))),
        }
    }

    /// Reads the four hexadecimal digits that follow the current character.
    #[verifier::opaque]
    pub open spec fn decode_hex_escape(self) -> (ParserView, Result<u16, ParserError>) {
        let (p1, r1) = self.hex_step(0);
        match r1 {
            Err(e) => (p1, Err(e)),
            Ok(n1) => {
                let (p2, r2) = p1.hex_step(n1);
                match r2 {
                    Err(e) => (p2, Err(e)),
                    Ok(n2) => {
                        let (p3, r3) = p2.hex_step(n2);
                        match r3 {
                            Err(e) => (p3, Err(e)),
                            Ok(n3) => p3.hex_step(n3),
                        }
                    },
                }
            },
        }
    }

    /// Reads what follows `\u`, the current character being the `u`: one
    /// character, written as four hexadecimal digits or, above `U+FFFF`, as
    /// a pair of surrogates, each in its own escape.
    #[verifier::opaque]
    pub open spec fn parse_unicode_escape(self) -> (ParserView, Result<char, ParserError>) {
        let (p1, r1) = self.decode_hex_escape();
        match r1 {
            Err(e) => (p1, Err(e)),
            Ok(n1) => {
                if 0xDC00 <= n1 && n1 <= 0xDFFF {
                    (p1, Err(p1.error(ErrorCode::LoneLeadingSurrogateInHexEscape)))
                } else if 0xD800 <= n1 && n1 <= 0xDBFF {
                    let a = p1.bump();
                    let b = a.bump();
                    if a.ch_is('\\') && b.ch_is('u') {
                        let (p2, r2) = b.decode_hex_escape();
                        match r2 {
                            Err(e) => (p2, Err(e)),
                            Ok(n2) => {
                                if n2 < 0xDC00 || n2 > 0xDFFF {
                                    (
                                        p2,
                                        Err(
                                            p2.error(ErrorCode::LoneLeadingSurrogateInHexEscape),
                                        ),
                                    )
                                } else {
                                    (p2, Ok(surrogate_pair(n1, n2)))
                                }
                            },
                        }
                    } else {
                        (b, Err(b.error(ErrorCode::UnexpectedEndOfHexEscape)))
                    }
                } else {
                    (p1, Ok(n1 as char))
                }
            },
        }
    }

    /// Reads what follows a backslash, the current character being the one
    /// after it: the character that the escape stands for.
    #[verifier::opaque]
    pub open spec fn parse_escape(self) -> (ParserView, Result<char, ParserError>) {
        let c = self.ch_or_null();
        if c == '"' {
            (self, Ok('"'))
        } else if c == '\\' {
            (self, Ok('\\'))
        } else if c == '/' {
            (self, Ok('/'))
        } else if c == 'b' {
            (self, Ok('\x08'))
        } else if c == 'f' {
            (self, Ok('\x0c'))
        } else if c == 'n' {
            (self, Ok('\n'))
        } else if c == 'r' {
            (self, Ok('\r'))
        } else if c == 't' {
            (self, Ok('\t'))
        } else if c == 'u' {
            self.parse_unicode_escape()
        } else {
            (self, Err(self.error(ErrorCode::InvalidEscape)))
        }
    }

    /// Reads the rest of a string after the characters `res`, the current
    /// character being the last one read: up to the quote that closes the
    /// string, and one character further.
    pub open spec fn parse_str_from(self, res: Seq<char>) -> (
        ParserView,
        Result<Seq<char>, ParserError>,
    )
        decreases self.remaining(),
    {
        let next = self.bump();
        match next.ch() {
            None => (next, Err(next.error(ErrorCode::EOFWhileParsingString))),
            Some(c) => {
                if c == '\\' {
                    let esc = next.bump();
                    if esc.eof() {
                        (esc, Err(esc.error(ErrorCode::EOFWhileParsingString)))
                    } else {
                        proof {
                            crate::json::progress::lemma_parse_escape(esc);
                        }
                        let (last, unescaped) = esc.parse_escape();
                        match unescaped {
                            Err(e) => (last, Err(e)),
                            Ok(c) => last.parse_str_from(res.push(c)),
                        }
                    }
                } else if c == '"' {
                    (next.bump(), Ok(res))
                } else if is_control(c) {
                    (next, Err(next.error(ErrorCode::ControlCharacterInString)))
                } else {
                    next.parse_str_from(res.push(c))
                }
            },
        }
    }

    /// Reads a string, the current character being the quote that opens it.
    pub open spec fn parse_str(self) -> (ParserView, Result<Seq<char>, ParserError>) {
        self.parse_str_from(Seq::empty())
    }

    /// Reads the rest of a word after its first letter, which is the
    /// current character, and one character further; any other character
    /// is an error where it stands.
    pub open spec fn parse_ident(self, ident: Seq<char>, value: JsonEventView) -> (
        ParserView,
        JsonEventView,
    )
        decreases ident.len(),
    {
        let next = self.bump();
        if ident.len() == 0 {
            (next, value)
        } else if next.ch_is(ident[0]) {
            next.parse_ident(ident.drop_first(), value)
        } else {
            (next, JsonEventView::Error(next.error(ErrorCode::InvalidSyntax)))
        }
    }

    /// Reads the first event of a value: a whole scalar, or the bracket
    /// that opens a container.
    pub open spec fn parse_value(self) -> (ParserView, JsonEventView) {
        match self.ch() {
            None => self.error_event(ErrorCode::EOFWhileParsingValue),
            Some(c) => {
                if c == 'n' {
                    self.parse_ident(seq!['u', 'l', 'l'], JsonEventView::NullValue)
                } else if c == 't' {
                    self.parse_ident(seq!['r', 'u', 'e'], JsonEventView::BooleanValue(true))
                } else if c == 'f' {
                    self.parse_ident(seq!['a', 'l', 's', 'e'], JsonEventView::BooleanValue(false))
                } else if is_digit(c) || c == '-' {
                    self.parse_number()
                } else if c == '"' {
                    let (next, s) = self.parse_str();
                    match s {
                        Ok(s) => (next, JsonEventView::StringValue(s)),
                        Err(e) => (next, JsonEventView::Error(e)),
                    }
                } else if c == '[' {
                    (self.bump(), JsonEventView::ArrayStart)
                } else if c == '{' {
                    (self.bump(), JsonEventView::ObjectStart)
                } else {
                    self.error_event(ErrorCode::InvalidSyntax)
                }
            },
        }
    }

    /// Reads a value and moves to the state that its first event asks for,
    /// or to `otherwise` after a scalar.
    pub open spec fn parse_value_then(self, otherwise: ParserState) -> (
        ParserView,
        JsonEventView,
    ) {
        let (next, event) = self.parse_value();
        (next.with_state(state_from_event(event, otherwise)), event)
    }

    /// Reads the value of the whole document.
    pub open spec fn parse_start(self) -> (ParserView, JsonEventView) {
        self.parse_value_then(ParserState::ParseBeforeFinish)
    }

    /// Closes a container at the current character: moves past it, to the
    /// state that follows a value.
    pub open spec fn close(self) -> ParserView {
        self.with_state(state_after_value(self.stack)).bump()
    }

    /// Reads an element of an array, or the bracket that closes an empty
    /// one; `first` tells that no element has been read yet.
    pub open spec fn parse_array(self, first: bool) -> (ParserView, JsonEventView) {
        if self.ch_is(']') {
            if !first {
                self.error_event(ErrorCode::InvalidSyntax)
            } else {
                (self.close(), JsonEventView::ArrayEnd)
            }
        } else {
            let entered = if first {
                self.with_stack(self.stack.push(StackElementView::Index(0)))
            } else {
                self
            };
            entered.parse_value_then(ParserState::ParseArrayComma)
        }
    }

    /// After an element of an array: reads the comma before the next one,
    /// which gives no event, or the bracket that closes the array.
    pub open spec fn parse_array_comma_or_end(self) -> (ParserView, Option<JsonEventView>) {
        if self.ch_is(',') {
            let index = self.stack.last()->Index_0;
            (
                self.with_stack(
                    self.stack.drop_last().push(StackElementView::Index(next_index(index))),
                ).with_state(ParserState::ParseArray(false)).bump(),
                None,
            )
        } else if self.ch_is(']') {
            (self.with_stack(self.stack.drop_last()).close(), Some(JsonEventView::ArrayEnd))
        } else if self.eof() {
            let (next, event) = self.error_event(ErrorCode::EOFWhileParsingArray);
            (next, Some(event))
        } else {
            let (next, event) = self.error_event(ErrorCode::InvalidSyntax);
            (next, Some(event))
        }
    }

    /// Reads a key, a colon and the first event of the value, or the brace
    /// that closes an empty object; `first` tells that no entry has been
    /// read yet. A brace after a comma is an error.
    pub open spec fn parse_object(self, first: bool) -> (ParserView, JsonEventView) {
        if self.ch_is('}') {
            if !first {
                self.error_event(ErrorCode::TrailingComma)
            } else {
                (self.close(), JsonEventView::ObjectEnd)
            }
        } else if self.eof() {
            self.error_event(ErrorCode::EOFWhileParsingObject)
        } else if !self.ch_is('"') {
            self.error_event(ErrorCode::KeyMustBeAString)
        } else {
            let (after_key, key) = self.parse_str();
            match key {
                Err(e) => (
                    after_key.with_state(ParserState::ParseFinished),
                    JsonEventView::Error(e),
                ),
                Ok(key) => {
                    let at_colon = after_key.skip_whitespace();
                    if at_colon.eof() {
                        at_colon.error_event(ErrorCode::EOFWhileParsingObject)
                    } else if !at_colon.ch_is(':') {
                        at_colon.error_event(ErrorCode::ExpectedColon)
                    } else {
                        at_colon.with_stack(
                            at_colon.stack.push(StackElementView::Key(key)),
                        ).bump().skip_whitespace().parse_value_then(ParserState::ParseObjectComma)
                    }
                },
            }
        }
    }

    /// After the entries of an object: reads the brace that closes it.
    pub open spec fn parse_object_end(self) -> (ParserView, JsonEventView) {
        if self.ch_is('}') {
            (self.close(), JsonEventView::ObjectEnd)
        } else if self.eof() {
            self.error_event(ErrorCode::EOFWhileParsingObject)
        } else {
            self.error_event(ErrorCode::InvalidSyntax)
        }
    }

    /// Reads up to the next event, from a state in which one is due.
    pub open spec fn parse(self) -> (ParserView, JsonEventView) {
        let here = self.skip_whitespace();
        match here.state {
            ParserState::ParseStart => here.parse_start(),
            ParserState::ParseArray(first) => here.parse_array(first),
            ParserState::ParseArrayComma => {
                let (next, event) = here.parse_array_comma_or_end();
                match event {
                    Some(event) => (next, event),
                    None => next.skip_whitespace().parse_array(false),
                }
            },
            ParserState::ParseObject(first) => here.parse_object(first),
            ParserState::ParseObjectComma => {
                let left = here.with_stack(here.stack.drop_last());
                if left.ch_is(',') {
                    left.with_state(ParserState::ParseObject(false)).bump().skip_whitespace()
                        .parse_object(false)
                } else {
                    left.parse_object_end()
                }
            },
            _ => here.error_event(ErrorCode::InvalidSyntax),
        }
    }

    /// One step of the parser: the next event, if there is one, and the
    /// parser after it. After the value of the document only white space
    /// may follow; once finished, the parser stays as it is.
    #[verifier::opaque]
    pub open spec fn step(self) -> (ParserView, Option<JsonEventView>) {
        if self.state == ParserState::ParseFinished {
            (self, None)
        } else if self.state == ParserState::ParseBeforeFinish {
            let here = self.skip_whitespace();
            if here.eof() {
                (here.with_state(ParserState::ParseFinished), None)
            } else {
                let (next, event) = here.error_event(ErrorCode::TrailingCharacters);
                (next, Some(event))
            }
        } else {
            let (next, event) = self.parse();
            (next, Some(event))
        }
    }

    /// The parser has read on from `before`, in the same state and at the
    /// same place in the document.
    pub open spec fn extends(self, before: ParserView) -> bool {
        &&& self.input == before.input
        &&& self.stack == before.stack
        &&& self.state == before.state
        &&& before.pos <= self.pos
    }

    /// The parser has read on from `before` in the same input.
    pub open spec fn reads_on(self, before: ParserView) -> bool {
        &&& self.input == before.input
        &&& before.pos <= self.pos
    }

    /// The counters are in step with the place in the input, which has not
    /// run past the end by more than one character, and fit the machine.
    pub open spec fn inv(self) -> bool {
        &&& 0 <= self.pos <= self.input.len() + 1
        &&& 1 <= self.line <= self.pos + 2
        &&& 0 <= self.col <= self.pos + 1
        &&& self.input.len() + 3 <= usize::MAX
    }

    /// The state fits the stack: after an element of an array the innermost
    /// element is an index, after an entry of an object it is a key.
    pub open spec fn consistent(self) -> bool {
        match self.state {
            ParserState::ParseArray(first) => first || (self.stack.len() > 0
                && self.stack.last() is Index),
            ParserState::ParseArrayComma => self.stack.len() > 0 && self.stack.last() is Index,
            ParserState::ParseObjectComma => self.stack.len() > 0 && self.stack.last() is Key,
            _ => true,
        }
    }

    /// The parser is in a state that `step` leads to from the start.
    pub open spec fn wf(self) -> bool {
        &&& self.inv()
        &&& self.consistent()
        &&& (self.state != ParserState::ParseFinished ==> self.pos <= self.input.len())
    }
}

/// The view of the result of reading a string.
pub open spec fn text_result(r: Result<String, ParserError>) -> Result<Seq<char>, ParserError> {
    match r {
        Ok(s) => Ok(s@),
        Err(e) => Err(e),
    }
}

/// A streaming JSON parser: it reads the characters of a document and hands
/// out one JsonEvent after another.
pub struct Parser {
    rdr: Vec<char>,
    pos: usize,
    line: usize,
    col: usize,
    // We maintain a stack representing where we are in the logical structure
    // of the JSON stream.
    stack: Stack,
    // A state machine is kept to make it possible to interrupt and resume parsing.
    state: ParserState,
}

impl View for Parser {
    type V = ParserView;

    closed spec fn view(&self) -> ParserView {
        ParserView {
            input: self.rdr@,
            pos: self.pos as int,
            line: self.line as int,
            col: self.col as int,
            stack: self.stack@,
            state: self.state,
        }
    }
}

impl Parser {
    /// Creates the JSON parser.
    pub fn new(rdr: Vec<char>) -> (r: Parser)
        requires
            rdr@.len() + 3 <= usize::MAX,
        ensures
            r@ == ParserView::start(rdr@),
            r@.wf(),
    {
        let line: usize = if rdr.len() > 0 && rdr[0] == '\n' {
            2
        } else {
            1
        };
        Parser { rdr, pos: 0, line, col: 1, stack: Stack::new(), state: ParserState::ParseStart }
    }

    /// Provides access to the current position in the logical structure of the
    /// JSON stream.
    pub fn stack<'l>(&'l self) -> (r: &'l Stack)
        ensures
            r@ == self@.stack,
    {
        &self.stack
    }

    /// What the parser expects next.
    pub fn state(&self) -> (r: ParserState)
        ensures
            r == self@.state,
    {
        self.state
    }

    fn ch(&self) -> (r: Option<char>)
        ensures
            r == self@.ch(),
    {
        if self.pos < self.rdr.len() {
            Some(self.rdr[self.pos])
        } else {
            None
        }
    }

    fn eof(&self) -> (r: bool)
        ensures
            r == self@.eof(),
    {
        self.pos >= self.rdr.len()
    }

    fn ch_or_null(&self) -> (r: char)
        ensures
            r == self@.ch_or_null(),
    {
        if self.pos < self.rdr.len() {
            self.rdr[self.pos]
        } else {
            '\x00'
        }
    }

    fn bump(&mut self)
        requires
            old(self)@.inv(),
            old(self)@.pos <= old(self)@.input.len(),
        ensures
            final(self)@.extends(old(self)@),
            final(self)@ == old(self)@.bump(),
            final(self)@.inv(),
            old(self)@.pos < old(self)@.input.len() ==> final(self)@.pos <= final(self)@.input.len(),
    {
        self.pos += 1;
        if self.ch_is('\n') {
            self.line += 1;
            self.col = 1;
        } else {
            self.col += 1;
        }
    }

    fn next_char(&mut self) -> (r: Option<char>)
        requires
            old(self)@.inv(),
            old(self)@.pos <= old(self)@.input.len(),
        ensures
            final(self)@.extends(old(self)@),
            final(self)@ == old(self)@.bump(),
            r == final(self)@.ch(),
            final(self)@.inv(),
            old(self)@.pos < old(self)@.input.len() ==> final(self)@.pos <= final(self)@.input.len(),
    {
        self.bump();
        self.ch()
    }

    // Whether the current character is a decimal digit.
    fn at_digit(&self) -> (r: bool)
        ensures
            r == (self@.ch() is Some && is_digit(self@.ch()->0)),
    {
        self.pos < self.rdr.len() && '0' <= self.rdr[self.pos] && self.rdr[self.pos] <= '9'
    }

    fn ch_is(&self, c: char) -> (r: bool)
        ensures
            r == self@.ch_is(c),
    {
        self.pos < self.rdr.len() && self.rdr[self.pos] == c
    }

    /// The error `reason` at the character where the parser stands.
    pub fn error<E>(&self, reason: ErrorCode) -> (r: Result<E, ParserError>)
        ensures
            r == Err::<E, ParserError>(self@.error(reason)),
    {
        Err(ParserError::SyntaxError(reason, self.line, self.col))
    }

    fn parse_whitespace(&mut self)
        requires
            old(self)@.inv(),
            old(self)@.pos <= old(self)@.input.len(),
        ensures
            final(self)@.extends(old(self)@),
            final(self)@ == old(self)@.skip_whitespace(),
            final(self)@.inv(),
            final(self)@.pos <= final(self)@.input.len(),
    {
        while self.ch_is(' ') || self.ch_is('\n') || self.ch_is('\t') || self.ch_is('\r')
            invariant
                self@.inv(),
                self@.extends(old(self)@),
                self@.pos <= self@.input.len(),
                self@.skip_whitespace() == old(self)@.skip_whitespace(),
            decreases self@.remaining(),
        {
            self.bump();
        }
    }

    fn parse_number(&mut self) -> (r: JsonEvent)
        requires
            old(self)@.inv(),
            old(self)@.pos <= old(self)@.input.len(),
        ensures
            final(self)@.extends(old(self)@),
            (final(self)@, r@) == old(self)@.parse_number(),
            !(r@ is ArrayStart) && !(r@ is ObjectStart),
            final(self)@.inv(),
            final(self)@.pos <= final(self)@.input.len(),
    {
        let mut neg = false;

        if self.ch_is('-') {
            self.bump();
            neg = true;
        }
        let res = match self.parse_u64() {
            Ok(res) => res,
            Err(e) => {
                return JsonEvent::Error(e);
            },
        };

        if self.ch_is('.') || self.ch_is('e') || self.ch_is('E') {
            let fraction = if self.ch_is('.') {
                match self.parse_decimal() {
                    Ok(digits) => digits,
                    Err(e) => {
                        return JsonEvent::Error(e);
                    },
                }
            } else {
                let mut zero: Vec<u8> = Vec::new();
                zero.push(0u8);
                assert(zero@ =~= seq![0u8]);
                zero
            };
            let (exp_negative, exponent) = if self.ch_is('e') || self.ch_is('E') {
                match self.parse_exponent() {
                    Ok(exponent) => exponent,
                    Err(e) => {
                        return JsonEvent::Error(e);
                    },
                }
            } else {
                (false, 0u64)
            };
            JsonEvent::F64Value(
                Float::Finite(Decimal::from_parts(neg, res, fraction, exp_negative, exponent)),
            )
        } else {
            if neg {
                // Make sure we don't underflow.
                if res > 0x8000_0000_0000_0000u64 {
                    JsonEvent::Error(
                        ParserError::SyntaxError(ErrorCode::InvalidNumber, self.line, self.col),
                    )
                } else if res == 0x8000_0000_0000_0000u64 {
                    JsonEvent::I64Value(i64::MIN)
                } else {
                    JsonEvent::I64Value(-(res as i64))
                }
            } else {
                JsonEvent::U64Value(res)
            }
        }
    }

    fn parse_u64(&mut self) -> (r: Result<u64, ParserError>)
        requires
            old(self)@.inv(),
            old(self)@.pos <= old(self)@.input.len(),
        ensures
            final(self)@.extends(old(self)@),
            (final(self)@, r) == old(self)@.parse_u64(),
            final(self)@.inv(),
            final(self)@.pos <= final(self)@.input.len(),
    {
        let mut accum: u64 = 0;

        let c = self.ch_or_null();
        if c == '0' {
            self.bump();

            // A leading '0' must be the only digit before the decimal point.
            let d = self.ch_or_null();
            if '0' <= d && d <= '9' {
                return self.error(ErrorCode::InvalidNumber);
            }
        } else if '1' <= c && c <= '9' {
            while self.at_digit()
                invariant
                    self@.inv(),
                    self@.extends(old(self)@),
                    self@.pos <= self@.input.len(),
                    self@.parse_digits(accum) == old(self)@.parse_u64(),
                decreases self@.remaining(),
            {
                let c = self.ch_or_null();
                let digit = (c as u64) - ('0' as u64);
                accum = match accum.checked_mul(10) {
                    Some(v) => v,
                    None => {
                        return self.error(ErrorCode::InvalidNumber);
                    },
                };
                accum = match accum.checked_add(digit) {
                    Some(v) => v,
                    None => {
                        return self.error(ErrorCode::InvalidNumber);
                    },
                };
                self.bump();
            }
        } else {
            return self.error(ErrorCode::InvalidNumber);
        }
        Ok(accum)
    }

    fn parse_decimal(&mut self) -> (r: Result<Vec<u8>, ParserError>)
        requires
            old(self)@.inv(),
            old(self)@.pos < old(self)@.input.len(),
        ensures
            final(self)@.extends(old(self)@),
            final(self)@ == old(self)@.parse_decimal().0,
            match r {
                Ok(digits) => old(self)@.parse_decimal().1 == Ok::<Seq<u8>, ParserError>(digits@)
                    && digits@.len() >= 1 && forall|i: int|
                    0 <= i < digits@.len() ==> digits@[i] <= 9,
                Err(e) => old(self)@.parse_decimal().1 == Err::<Seq<u8>, ParserError>(e),
            },
            final(self)@.inv(),
            final(self)@.pos <= final(self)@.input.len(),
    {
        self.bump();

        // Make sure a digit follows the decimal place.
        let c = self.ch_or_null();
        if !('0' <= c && c <= '9') {
            return self.error(ErrorCode::InvalidNumber);
        }
        let ghost start = self@;
        let mut digits: Vec<u8> = Vec::new();
        while self.at_digit()
            invariant
                self@.inv(),
                self@.extends(old(self)@),
                self@.pos <= self@.input.len(),
                self@.parse_fraction_digits(digits@) == start.parse_fraction_digits(Seq::empty()),
                forall|i: int| 0 <= i < digits@.len() ==> digits@[i] <= 9,
                digits@.len() == 0 ==> self@ == start,
            decreases self@.remaining(),
        {
            let c = self.ch_or_null();
            digits.push(((c as u32) - ('0' as u32)) as u8);
            self.bump();
        }
        Ok(digits)
    }

    fn parse_exponent(&mut self) -> (r: Result<(bool, u64), ParserError>)
        requires
            old(self)@.inv(),
            old(self)@.pos < old(self)@.input.len(),
        ensures
            final(self)@.extends(old(self)@),
            (final(self)@, r) == old(self)@.parse_exponent(),
            final(self)@.inv(),
            final(self)@.pos <= final(self)@.input.len(),
    {
        self.bump();

        let mut exp: u64 = 0;
        let mut neg_exp = false;

        if self.ch_is('+') {
            self.bump();
        } else if self.ch_is('-') {
            self.bump();
            neg_exp = true;
        }
        // Make sure a digit follows the exponent place.

        let c = self.ch_or_null();
        if !('0' <= c && c <= '9') {
            return self.error(ErrorCode::InvalidNumber);
        }
        let ghost start = self@;
        while self.at_digit()
            invariant
                self@.inv(),
                self@.extends(old(self)@),
                self@.pos <= self@.input.len(),
                self@.parse_exponent_digits(exp) == start.parse_exponent_digits(0),
            decreases self@.remaining(),
        {
            let c = self.ch_or_null();
            let digit = (c as u64) - ('0' as u64);
            exp = match exp.checked_mul(10) {
                Some(v) => match v.checked_add(digit) {
                    Some(w) => w,
                    None => u64::MAX,
                },
                None => u64::MAX,
            };
            self.bump();
        }
        Ok((neg_exp, exp))
    }

    // Reads one hexadecimal digit and adds it to `n`.
    fn hex_step(&mut self, n: u16) -> (r: Result<u16, ParserError>)
        requires
            old(self)@.inv(),
            old(self)@.pos < old(self)@.input.len(),
            n < 0x1000,
        ensures
            final(self)@.extends(old(self)@),
            (final(self)@, r) == old(self)@.hex_step(n),
            final(self)@.inv(),
            r is Ok ==> final(self)@.pos < final(self)@.input.len(),
            r is Ok ==> r->Ok_0 <= n * 16 + 15,
            final(self)@.pos <= final(self)@.input.len(),
    {
        self.bump();
        let c = self.ch_or_null();
        if '0' <= c && c <= '9' {
            Ok(n * 16 + ((c as u16) - ('0' as u16)))
        } else if 'a' <= c && c <= 'f' {
            Ok(n * 16 + (10 + (c as u16) - ('a' as u16)))
        } else if 'A' <= c && c <= 'F' {
            Ok(n * 16 + (10 + (c as u16) - ('A' as u16)))
        } else {
            self.error(ErrorCode::InvalidEscape)
        }
    }

    fn decode_hex_escape(&mut self) -> (r: Result<u16, ParserError>)
        requires
            old(self)@.inv(),
            old(self)@.pos < old(self)@.input.len(),
        ensures
            final(self)@.extends(old(self)@),
            (final(self)@, r) == old(self)@.decode_hex_escape(),
            final(self)@.inv(),
            r is Ok ==> final(self)@.pos < final(self)@.input.len(),
            final(self)@.pos <= final(self)@.input.len(),
    {
        proof {
            reveal(ParserView::decode_hex_escape);
        }
        let n1 = match self.hex_step(0) {
            Ok(n) => n,
            Err(e) => {
                return Err(e);
            },
        };
        let n2 = match self.hex_step(n1) {
            Ok(n) => n,
            Err(e) => {
                return Err(e);
            },
        };
        let n3 = match self.hex_step(n2) {
            Ok(n) => n,
            Err(e) => {
                return Err(e);
            },
        };
        self.hex_step(n3)
    }

    // Reads what follows `\u`: one character, or two surrogates that make one.
    fn parse_unicode_escape(&mut self) -> (r: Result<char, ParserError>)
        requires
            old(self)@.inv(),
            old(self)@.pos < old(self)@.input.len(),
        ensures
            final(self)@.extends(old(self)@),
            (final(self)@, r) == old(self)@.parse_unicode_escape(),
            final(self)@.inv(),
            r is Ok ==> final(self)@.pos < final(self)@.input.len(),
    {
        proof {
            reveal(ParserView::parse_unicode_escape);
        }
        let n1 = match self.decode_hex_escape() {
            Ok(n) => n,
            Err(e) => {
                return Err(e);
            },
        };
        if 0xDC00 <= n1 && n1 <= 0xDFFF {
            return self.error(ErrorCode::LoneLeadingSurrogateInHexEscape);
        }
        if 0xD800 <= n1 && n1 <= 0xDBFF {
            // Non-BMP characters are encoded as a sequence of
            // two hex escapes, representing UTF-16 surrogates.
            let a = self.next_char();
            let b = self.next_char();
            match (a, b) {
                (Some('\\'), Some('u')) => (),
                _ => {
                    return self.error(ErrorCode::UnexpectedEndOfHexEscape);
                },
            }
            let n2 = match self.decode_hex_escape() {
                Ok(n) => n,
                Err(e) => {
                    return Err(e);
                },
            };
            if n2 < 0xDC00 || n2 > 0xDFFF {
                return self.error(ErrorCode::LoneLeadingSurrogateInHexEscape);
            }
            let c: u32 = ((n1 - 0xD800) as u32) * 0x400 + ((n2 - 0xDC00) as u32) + 0x1_0000;
            return match char_from_u32(c) {
                Some(c) => Ok(c),
                None => self.error(ErrorCode::InvalidUnicodeCodePoint),
            };
        }
        match char_from_u32(n1 as u32) {
            Some(c) => Ok(c),
            None => self.error(ErrorCode::InvalidUnicodeCodePoint),
        }
    }

    // Reads what follows a backslash: the character that the escape stands for.
    fn parse_escape(&mut self) -> (r: Result<char, ParserError>)
        requires
            old(self)@.inv(),
            old(self)@.pos < old(self)@.input.len(),
        ensures
            final(self)@.extends(old(self)@),
            (final(self)@, r) == old(self)@.parse_escape(),
            final(self)@.inv(),
            r is Ok ==> final(self)@.pos < final(self)@.input.len(),
            final(self)@.remaining() <= old(self)@.remaining(),
    {
        proof {
            reveal(ParserView::parse_escape);
        }
        let c = self.ch_or_null();
        if c == '"' {
            Ok('"')
        } else if c == '\\' {
            Ok('\\')
        } else if c == '/' {
            Ok('/')
        } else if c == 'b' {
            Ok('\x08')
        } else if c == 'f' {
            Ok('\x0c')
        } else if c == 'n' {
            Ok('\n')
        } else if c == 'r' {
            Ok('\r')
        } else if c == 't' {
            Ok('\t')
        } else if c == 'u' {
            self.parse_unicode_escape()
        } else {
            self.error(ErrorCode::InvalidEscape)
        }
    }

    fn parse_str(&mut self) -> (r: Result<String, ParserError>)
        requires
            old(self)@.inv(),
            old(self)@.pos < old(self)@.input.len(),
        ensures
            final(self)@.extends(old(self)@),
            (final(self)@, text_result(r)) == old(self)@.parse_str(),
            final(self)@.inv(),
            r is Ok ==> final(self)@.pos <= final(self)@.input.len(),
    {
        let mut res = String::new();

        loop
            invariant
                self@.inv(),
                self@.extends(old(self)@),
                self@.pos < self@.input.len(),
                self@.parse_str_from(res@) == old(self)@.parse_str(),
            decreases self@.remaining(),
        {
            self.bump();
            let c = match self.ch() {
                None => {
                    return self.error(ErrorCode::EOFWhileParsingString);
                },
                Some(c) => c,
            };
            if c == '\\' {
                self.bump();
                if self.eof() {
                    return self.error(ErrorCode::EOFWhileParsingString);
                }
                match self.parse_escape() {
                    Ok(c) => push_char(&mut res, c),
                    Err(e) => {
                        return Err(e);
                    },
                }
            } else if c == '"' {
                self.bump();
                return Ok(res);
            } else if (c as u32) <= 0x1f || (c as u32) == 0x7f {
                return self.error(ErrorCode::ControlCharacterInString);
            } else {
                push_char(&mut res, c);
            }
        }
    }

    // Invoked at each iteration, consumes the stream until it has enough
    // information to return a JsonEvent.
    // Manages an internal state so that parsing can be interrupted and resumed.
    // Also keeps track of the position in the logical structure of the json
    // stream int the form of a stack that can be queried by the user using the
    // stack() method.
    fn parse(&mut self) -> (r: JsonEvent)
        requires
            old(self)@.wf(),
            old(self)@.state != ParserState::ParseFinished,
        ensures
            final(self)@.reads_on(old(self)@),
            r@ is ArrayStart || r@ is ObjectStart ==> old(self)@.pos < final(self)@.pos,
            (final(self)@, r@) == old(self)@.parse(),
            final(self)@.wf(),
            r@ is Error ==> final(self)@.state == ParserState::ParseFinished,
    {
        // At most two rounds: a comma leads on to the next element or
        // entry, which always gives an event.
        self.parse_whitespace();

        match self.state {
            ParserState::ParseStart => {
                return self.parse_start();
            },
            ParserState::ParseArray(first) => {
                return self.parse_array(first);
            },
            ParserState::ParseArrayComma => {
                match self.parse_array_comma_or_end() {
                    Some(evt) => {
                        return evt;
                    },
                    None => {},
                }
                self.parse_whitespace();
                return self.parse_array(false);
            },
            ParserState::ParseObject(first) => {
                return self.parse_object(first);
            },
            ParserState::ParseObjectComma => {
                self.stack.pop();
                if self.ch_is(',') {
                    self.state = ParserState::ParseObject(false);
                    self.bump();
                    self.parse_whitespace();
                    return self.parse_object(false);
                } else {
                    return self.parse_object_end();
                }
            },
            _ => {
                return self.error_event(ErrorCode::InvalidSyntax);
            },
        }
    }

    fn parse_start(&mut self) -> (r: JsonEvent)
        requires
            old(self)@.inv(),
            old(self)@.pos <= old(self)@.input.len(),
        ensures
            final(self)@.reads_on(old(self)@),
            r@ is ArrayStart || r@ is ObjectStart ==> old(self)@.pos < final(self)@.pos,
            (final(self)@, r@) == old(self)@.parse_start(),
            final(self)@.wf(),
            r@ is Error ==> final(self)@.state == ParserState::ParseFinished,
    {
        let val = self.parse_value();
        self.state = match val {
            JsonEvent::Error(_) => ParserState::ParseFinished,
            JsonEvent::ArrayStart => ParserState::ParseArray(true),
            JsonEvent::ObjectStart => ParserState::ParseObject(true),
            _ => ParserState::ParseBeforeFinish,
        };
        return val;
    }

    // The state that follows a value, which the top of the stack tells.
    fn state_after_value(&self) -> (r: ParserState)
        ensures
            r == state_after_value(self@.stack),
    {
        if self.stack.is_empty() {
            ParserState::ParseBeforeFinish
        } else if self.stack.last_is_index() {
            ParserState::ParseArrayComma
        } else {
            ParserState::ParseObjectComma
        }
    }

    fn parse_array(&mut self, first: bool) -> (r: JsonEvent)
        requires
            old(self)@.inv(),
            old(self)@.pos <= old(self)@.input.len(),
            first || (old(self)@.stack.len() > 0 && old(self)@.stack.last() is Index),
        ensures
            final(self)@.reads_on(old(self)@),
            r@ is ArrayStart || r@ is ObjectStart ==> old(self)@.pos < final(self)@.pos,
            (final(self)@, r@) == old(self)@.parse_array(first),
            final(self)@.wf(),
            r@ is Error ==> final(self)@.state == ParserState::ParseFinished,
    {
        if self.ch_is(']') {
            if !first {
                self.error_event(ErrorCode::InvalidSyntax)
            } else {
                self.state = self.state_after_value();
                self.bump();
                JsonEvent::ArrayEnd
            }
        } else {
            if first {
                self.stack.push_index(0);
            }
            let val = self.parse_value();
            self.state = match val {
                JsonEvent::Error(_) => ParserState::ParseFinished,
                JsonEvent::ArrayStart => ParserState::ParseArray(true),
                JsonEvent::ObjectStart => ParserState::ParseObject(true),
                _ => ParserState::ParseArrayComma,
            };
            val
        }
    }

    fn parse_array_comma_or_end(&mut self) -> (r: Option<JsonEvent>)
        requires
            old(self)@.inv(),
            old(self)@.pos <= old(self)@.input.len(),
            old(self)@.stack.len() > 0,
            old(self)@.stack.last() is Index,
        ensures
            final(self)@.reads_on(old(self)@),
            (final(self)@, event_view(r)) == old(self)@.parse_array_comma_or_end(),
            final(self)@.wf(),
            r is Some && r->0@ is Error ==> final(self)@.state == ParserState::ParseFinished,
            r is None ==> final(self)@.stack.len() > 0 && final(self)@.stack.last() is Index,
    {
        if self.ch_is(',') {
            self.stack.bump_index();
            self.state = ParserState::ParseArray(false);
            self.bump();
            None
        } else if self.ch_is(']') {
            self.stack.pop();
            self.state = self.state_after_value();
            self.bump();
            Some(JsonEvent::ArrayEnd)
        } else if self.eof() {
            Some(self.error_event(ErrorCode::EOFWhileParsingArray))
        } else {
            Some(self.error_event(ErrorCode::InvalidSyntax))
        }
    }

    fn parse_object(&mut self, first: bool) -> (r: JsonEvent)
        requires
            old(self)@.inv(),
            old(self)@.pos <= old(self)@.input.len(),
        ensures
            final(self)@.reads_on(old(self)@),
            r@ is ArrayStart || r@ is ObjectStart ==> old(self)@.pos < final(self)@.pos,
            (final(self)@, r@) == old(self)@.parse_object(first),
            final(self)@.wf(),
            r@ is Error ==> final(self)@.state == ParserState::ParseFinished,
    {
        if self.ch_is('}') {
            if !first {
                return self.error_event(ErrorCode::TrailingComma);
            }
            self.state = self.state_after_value();
            self.bump();
            return JsonEvent::ObjectEnd;
        }
        if self.eof() {
            return self.error_event(ErrorCode::EOFWhileParsingObject);
        }
        if !self.ch_is('"') {
            return self.error_event(ErrorCode::KeyMustBeAString);
        }
        let s = match self.parse_str() {
            Ok(s) => s,
            Err(e) => {
                self.state = ParserState::ParseFinished;
                return JsonEvent::Error(e);
            },
        };
        self.parse_whitespace();
        if self.eof() {
            return self.error_event(ErrorCode::EOFWhileParsingObject);
        } else if self.ch_or_null() != ':' {
            return self.error_event(ErrorCode::ExpectedColon);
        }
        self.stack.push_key(s);
        self.bump();
        self.parse_whitespace();

        let val = self.parse_value();

        self.state = match val {
            JsonEvent::Error(_) => ParserState::ParseFinished,
            JsonEvent::ArrayStart => ParserState::ParseArray(true),
            JsonEvent::ObjectStart => ParserState::ParseObject(true),
            _ => ParserState::ParseObjectComma,
        };
        return val;
    }

    fn parse_object_end(&mut self) -> (r: JsonEvent)
        requires
            old(self)@.inv(),
            old(self)@.pos <= old(self)@.input.len(),
        ensures
            final(self)@.reads_on(old(self)@),
            (final(self)@, r@) == old(self)@.parse_object_end(),
            final(self)@.wf(),
            r@ is Error ==> final(self)@.state == ParserState::ParseFinished,
    {
        if self.ch_is('}') {
            self.state = self.state_after_value();
            self.bump();
            JsonEvent::ObjectEnd
        } else if self.eof() {
            self.error_event(ErrorCode::EOFWhileParsingObject)
        } else {
            self.error_event(ErrorCode::InvalidSyntax)
        }
    }

    fn parse_value(&mut self) -> (r: JsonEvent)
        requires
            old(self)@.inv(),
            old(self)@.pos <= old(self)@.input.len(),
        ensures
            final(self)@.reads_on(old(self)@),
            final(self)@.stack == old(self)@.stack,
            (final(self)@, r@) == old(self)@.parse_value(),
            final(self)@.inv(),
            r@ is ArrayStart || r@ is ObjectStart ==> old(self)@.pos < final(self)@.pos,
            !(r@ is Error) ==> final(self)@.pos <= final(self)@.input.len(),
    {
        if self.eof() {
            return self.error_event(ErrorCode::EOFWhileParsingValue);
        }
        let c = self.ch_or_null();
        if c == 'n' {
            proof {
                reveal_strlit("ull");
                assert("ull"@ =~= seq!['u', 'l', 'l']);
            }
            self.parse_ident("ull", JsonEvent::NullValue)
        } else if c == 't' {
            proof {
                reveal_strlit("rue");
                assert("rue"@ =~= seq!['r', 'u', 'e']);
            }
            self.parse_ident("rue", JsonEvent::BooleanValue(true))
        } else if c == 'f' {
            proof {
                reveal_strlit("alse");
                assert("alse"@ =~= seq!['a', 'l', 's', 'e']);
            }
            self.parse_ident("alse", JsonEvent::BooleanValue(false))
        } else if ('0' <= c && c <= '9') || c == '-' {
            self.parse_number()
        } else if c == '"' {
            match self.parse_str() {
                Ok(s) => JsonEvent::StringValue(s),
                Err(e) => JsonEvent::Error(e),
            }
        } else if c == '[' {
            self.bump();
            JsonEvent::ArrayStart
        } else if c == '{' {
            self.bump();
            JsonEvent::ObjectStart
        } else {
            self.error_event(ErrorCode::InvalidSyntax)
        }
    }

    fn parse_ident(&mut self, ident: &str, value: JsonEvent) -> (r: JsonEvent)
        requires
            old(self)@.inv(),
            old(self)@.pos < old(self)@.input.len(),
            !(value@ is Error),
        ensures
            final(self)@.extends(old(self)@),
            (final(self)@, r@) == old(self)@.parse_ident(ident@, value@),
            r@ == value@ || r@ is Error,
            final(self)@.inv(),
            !(r@ is Error) ==> final(self)@.pos <= final(self)@.input.len(),
    {
        let letters = chars_of(ident);
        let mut i: usize = 0;
        assert(ident@.skip(0) =~= ident@);
        while i < letters.len()
            invariant
                i <= letters.len(),
                letters@ == ident@,
                self@.inv(),
                self@.extends(old(self)@),
                self@.pos < self@.input.len(),
                self@.parse_ident(ident@.skip(i as int), value@) == old(self)@.parse_ident(
                    ident@,
                    value@,
                ),
            decreases letters.len() - i,
        {
            proof {
                assert(ident@.skip(i as int).drop_first() =~= ident@.skip(i + 1));
            }
            if self.next_char() != Some(letters[i]) {
                return JsonEvent::Error(
                    ParserError::SyntaxError(ErrorCode::InvalidSyntax, self.line, self.col),
                );
            }
            i += 1;
        }
        self.bump();
        value
    }

    fn error_event(&mut self, reason: ErrorCode) -> (r: JsonEvent)
        requires
            old(self)@.inv(),
        ensures
            final(self)@.reads_on(old(self)@),
            final(self)@.stack == old(self)@.stack,
            (final(self)@, r@) == old(self)@.error_event(reason),
            final(self)@.wf(),
            r@ is Error,
            final(self)@.state == ParserState::ParseFinished,
    {
        self.state = ParserState::ParseFinished;
        JsonEvent::Error(ParserError::SyntaxError(reason, self.line, self.col))
    }

    /// Reads up to the next event and returns it; `None` once the document
    /// has been read to its end, or after an error.
    pub fn next(&mut self) -> (r: Option<JsonEvent>)
        requires
            old(self)@.wf(),
        ensures
            (final(self)@, event_view(r)) == old(self)@.step(),
            final(self)@.wf(),
            final(self)@.reads_on(old(self)@),
            r is Some && (r->0@ is ArrayStart || r->0@ is ObjectStart) ==> old(self)@.pos
                < final(self)@.pos,
            r is Some && r->0@ is Error ==> final(self)@.state == ParserState::ParseFinished,
            old(self)@.state == ParserState::ParseFinished ==> r is None && final(self)@
                == old(self)@,
    {
        proof {
            reveal(ParserView::step);
        }
        if self.state == ParserState::ParseFinished {
            return None;
        }
        if self.state == ParserState::ParseBeforeFinish {
            self.parse_whitespace();
            // Make sure there is no trailing characters.
            if self.eof() {
                self.state = ParserState::ParseFinished;
                return None;
            } else {
                return Some(self.error_event(ErrorCode::TrailingCharacters));
            }
        }
        return Some(self.parse());
    }
}

} // verus!
