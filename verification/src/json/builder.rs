//! The tree builder: it drains the events of a parser into a value.

use vstd::prelude::*;
use crate::json::error::{ErrorCode, ParserError};
use crate::json::event::{event_view, JsonEvent, JsonEventView};
use crate::json::parser::{Parser, ParserView};
use crate::json::progress::{lemma_step_progress, starts_value};
use crate::json::stack::StackElement;
use crate::json::value::{items_view, lemma_items_view, with_entry, Json, JsonView, Object};

verus! {

// Builder and Parser have the same errors.
pub type BuilderError = ParserError;

/// One for an event that starts a value, zero for any other and for none.
pub open spec fn rank(token: Option<JsonEventView>) -> int {
    if starts_value(token) {
        1
    } else {
        0
    }
}

/// What holds of a value that was built from the event `token` at `p`, with
/// the parser at `after` behind it: the event starts a value, and the
/// parser has not gone back. The definitions below ask for it before they
/// go on to the next element, so that they are seen to come to an end.
pub open spec fn goes_on(p: ParserView, token: Option<JsonEventView>, after: ParserView) -> bool {
    starts_value(token) && after.remaining() <= p.remaining()
}

/// The value that starts with the event `token`, which has just been read,
/// and the parser after the last event of that value. A scalar is its own
/// value; the start of a container is followed by its elements, each a
/// value in turn, up to the end of the container. An error among the events
/// is the result, and so is an event that cannot start a value.
pub open spec fn build_value(p: ParserView, token: Option<JsonEventView>) -> (
    ParserView,
    Result<JsonView, ParserError>,
)
    decreases p.remaining(), rank(token), 1int,
{
    match token {
        Some(JsonEventView::NullValue) => (p, Ok(JsonView::Null)),
        Some(JsonEventView::I64Value(n)) => (p, Ok(JsonView::I64(n))),
        Some(JsonEventView::U64Value(n)) => (p, Ok(JsonView::U64(n))),
        Some(JsonEventView::F64Value(n)) => (p, Ok(JsonView::F64(n))),
        Some(JsonEventView::BooleanValue(b)) => (p, Ok(JsonView::Boolean(b))),
        Some(JsonEventView::StringValue(s)) => (p, Ok(JsonView::String(s))),
        Some(JsonEventView::Error(e)) => (p, Err(e)),
        Some(JsonEventView::ArrayStart) => build_array(p),
        Some(JsonEventView::ObjectStart) => build_object(p),
        Some(JsonEventView::ObjectEnd) => (p, Err(p.error(ErrorCode::InvalidSyntax))),
        Some(JsonEventView::ArrayEnd) => (p, Err(p.error(ErrorCode::InvalidSyntax))),
        None => (p, Err(p.error(ErrorCode::EOFWhileParsingValue))),
    }
}

/// The array whose start has just been read.
pub open spec fn build_array(p: ParserView) -> (ParserView, Result<JsonView, ParserError>)
    decreases p.remaining(), 1int, 0int,
{
    proof {
        lemma_step_progress(p);
    }
    let (next, token) = p.step();
    build_array_from(next, token, Seq::empty())
}

/// The array that holds `values` and what follows from the event `token`
/// on, up to the end of the array.
pub open spec fn build_array_from(
    p: ParserView,
    token: Option<JsonEventView>,
    values: Seq<JsonView>,
) -> (ParserView, Result<JsonView, ParserError>)
    decreases p.remaining(), rank(token), 2int,
{
    if token == Some(JsonEventView::ArrayEnd) {
        (p, Ok(JsonView::Array(values)))
    } else {
        let (after, value) = build_value(p, token);
        match value {
            Err(e) => (after, Err(e)),
            Ok(value) => {
                if goes_on(p, token, after) {
                    proof {
                        lemma_step_progress(after);
                    }
                    let (next, token) = after.step();
                    build_array_from(next, token, values.push(value))
                } else {
                    (after, Err(after.error(ErrorCode::InvalidSyntax)))
                }
            },
        }
    }
}

/// The object whose start has just been read.
pub open spec fn build_object(p: ParserView) -> (ParserView, Result<JsonView, ParserError>)
    decreases p.remaining(), 1int, 0int,
{
    proof {
        lemma_step_progress(p);
    }
    let (next, token) = p.step();
    build_object_from(next, token, Seq::empty())
}

/// The object that holds `entries` and what follows from the event `token`
/// on, up to the end of the object. The key of a value is the innermost
/// element of the parser's stack at the value's first event; a later entry
/// takes the place of an earlier one with the same key.
pub open spec fn build_object_from(
    p: ParserView,
    token: Option<JsonEventView>,
    entries: Seq<(Seq<char>, JsonView)>,
) -> (ParserView, Result<JsonView, ParserError>)
    decreases p.remaining(), rank(token), 2int,
{
    match token {
        Some(JsonEventView::ObjectEnd) => (p, Ok(JsonView::Object(entries))),
        Some(JsonEventView::Error(e)) => (p, Err(e)),
        None => (p, Err(p.error(ErrorCode::EOFWhileParsingObject))),
        _ => {
            if p.stack.len() > 0 && p.stack.last() is Key {
                let key = p.stack.last()->Key_0;
                let (after, value) = build_value(p, token);
                match value {
                    Err(e) => (after, Err(e)),
                    Ok(value) => {
                        if goes_on(p, token, after) {
                            proof {
                                lemma_step_progress(after);
                            }
                            let (next, token) = after.step();
                            build_object_from(next, token, with_entry(entries, key, value))
                        } else {
                            (after, Err(after.error(ErrorCode::InvalidSyntax)))
                        }
                    },
                }
            } else {
                (p, Err(p.error(ErrorCode::InvalidSyntax)))
            }
        },
    }
}

/// The value of the whole document that the parser `p` is about to read,
/// and the parser after it: the value that starts with the first event,
/// unless the event after it is an error, which is then the result.
pub open spec fn build(p: ParserView) -> (ParserView, Result<JsonView, ParserError>) {
    let (first, token) = p.step();
    let (after, value) = build_value(first, token);
    let (last, token) = after.step();
    match token {
        None => (last, value),
        Some(JsonEventView::Error(e)) => (last, Err(e)),
        Some(_) => (last, Err(last.error(ErrorCode::InvalidSyntax))),
    }
}

/// A builder only ever reads forward in its input.
pub proof fn lemma_build_value_reads_on(p: ParserView, token: Option<JsonEventView>)
    ensures
        build_value(p, token).0.reads_on(p),
    decreases p.remaining(), rank(token), 1int,
{
    match token {
        Some(JsonEventView::ArrayStart) => {
            lemma_build_array_reads_on(p);
        },
        Some(JsonEventView::ObjectStart) => {
            lemma_build_object_reads_on(p);
        },
        _ => {},
    }
}

/// The builder of an array only ever reads forward.
pub proof fn lemma_build_array_reads_on(p: ParserView)
    ensures
        build_array(p).0.reads_on(p),
    decreases p.remaining(), 1int, 0int,
{
    lemma_step_progress(p);
    let (next, token) = p.step();
    lemma_build_array_from_reads_on(next, token, Seq::empty());
}

/// The builder of the rest of an array only ever reads forward.
pub proof fn lemma_build_array_from_reads_on(
    p: ParserView,
    token: Option<JsonEventView>,
    values: Seq<JsonView>,
)
    ensures
        build_array_from(p, token, values).0.reads_on(p),
    decreases p.remaining(), rank(token), 2int,
{
    if token != Some(JsonEventView::ArrayEnd) {
        lemma_build_value_reads_on(p, token);
        let (after, value) = build_value(p, token);
        if value is Ok && goes_on(p, token, after) {
            lemma_step_progress(after);
            let (next, token2) = after.step();
            lemma_build_array_from_reads_on(next, token2, values.push(value->Ok_0));
        }
    }
}

/// The builder of an object only ever reads forward.
pub proof fn lemma_build_object_reads_on(p: ParserView)
    ensures
        build_object(p).0.reads_on(p),
    decreases p.remaining(), 1int, 0int,
{
    lemma_step_progress(p);
    let (next, token) = p.step();
    lemma_build_object_from_reads_on(next, token, Seq::empty());
}

/// The builder of the rest of an object only ever reads forward.
pub proof fn lemma_build_object_from_reads_on(
    p: ParserView,
    token: Option<JsonEventView>,
    entries: Seq<(Seq<char>, JsonView)>,
)
    ensures
        build_object_from(p, token, entries).0.reads_on(p),
    decreases p.remaining(), rank(token), 2int,
{
    if p.stack.len() > 0 && p.stack.last() is Key {
        lemma_build_value_reads_on(p, token);
        let (after, value) = build_value(p, token);
        if value is Ok && goes_on(p, token, after) {
            lemma_step_progress(after);
            let (next, token2) = after.step();
            lemma_build_object_from_reads_on(
                next,
                token2,
                with_entry(entries, p.stack.last()->Key_0, value->Ok_0),
            );
        }
    }
}

/// **A builder always goes on.** Where a value has been built, the event
/// that it was built from starts a value and the parser has not gone back:
/// what the definitions of the builder ask for before they go on to the
/// next element always holds.
pub proof fn lemma_goes_on(p: ParserView, token: Option<JsonEventView>)
    requires
        build_value(p, token).1 is Ok,
    ensures
        goes_on(p, token, build_value(p, token).0),
{
    lemma_build_value_reads_on(p, token);
}

/// The value that the text `input` denotes, or the first error in it. A
/// text too long for its places to be counted cannot be read.
pub open spec fn parse_document(input: Seq<char>) -> Result<JsonView, ParserError> {
    if input.len() + 3 <= usize::MAX {
        build(ParserView::start(input)).1
    } else {
        Err(ParserError::IoError)
    }
}

/// The view of what a builder returns.
pub open spec fn json_result(r: Result<Json, ParserError>) -> Result<JsonView, ParserError> {
    match r {
        Ok(v) => Ok(v@),
        Err(e) => Err(e),
    }
}

/// A Builder consumes a json::Parser to create a generic Json structure.
pub struct Builder {
    parser: Parser,
    token: Option<JsonEvent>,
}

impl Builder {
    /// The parser that the builder reads from.
    pub closed spec fn parser(&self) -> ParserView {
        self.parser@
    }

    /// The event that the builder has read last and not yet used.
    pub closed spec fn token(&self) -> Option<JsonEventView> {
        event_view(self.token)
    }

    /// Create a JSON Builder.
    pub fn new(src: Vec<char>) -> (r: Builder)
        requires
            src@.len() + 3 <= usize::MAX,
        ensures
            r.parser() == ParserView::start(src@),
            r.parser().wf(),
            r.token() is None,
    {
        Builder { parser: Parser::new(src), token: None }
    }

    // Decode a Json value from a Parser.
    pub fn build(&mut self) -> (r: Result<Json, BuilderError>)
        requires
            old(self).parser().wf(),
        ensures
            (final(self).parser(), json_result(r)) == build(old(self).parser()),
            final(self).parser().wf(),
    {
        self.bump();
        let result = self.build_value();
        self.bump();
        match self.token.take() {
            None => {},
            Some(JsonEvent::Error(e)) => {
                return Err(e);
            },
            Some(_) => {
                return self.parser.error(ErrorCode::InvalidSyntax);
            },
        }
        result
    }

    fn bump(&mut self)
        requires
            old(self).parser().wf(),
        ensures
            (final(self).parser(), final(self).token()) == old(self).parser().step(),
            final(self).parser().wf(),
            final(self).parser().reads_on(old(self).parser()),
    {
        self.token = self.parser.next();
    }

    fn build_value(&mut self) -> (r: Result<Json, BuilderError>)
        requires
            old(self).parser().wf(),
        ensures
            (final(self).parser(), json_result(r)) == build_value(
                old(self).parser(),
                old(self).token(),
            ),
            final(self).parser().wf(),
            final(self).parser().reads_on(old(self).parser()),
        decreases old(self).parser().remaining(), rank(old(self).token()), 1int,
    {
        return match self.token.take() {
            Some(JsonEvent::NullValue) => Ok(Json::Null),
            Some(JsonEvent::I64Value(n)) => Ok(Json::I64(n)),
            Some(JsonEvent::U64Value(n)) => Ok(Json::U64(n)),
            Some(JsonEvent::F64Value(n)) => Ok(Json::F64(n)),
            Some(JsonEvent::BooleanValue(b)) => Ok(Json::Boolean(b)),
            Some(JsonEvent::StringValue(s)) => Ok(Json::String(s)),
            Some(JsonEvent::Error(e)) => Err(e),
            Some(JsonEvent::ArrayStart) => self.build_array(),
            Some(JsonEvent::ObjectStart) => self.build_object(),
            Some(JsonEvent::ObjectEnd) => self.parser.error(ErrorCode::InvalidSyntax),
            Some(JsonEvent::ArrayEnd) => self.parser.error(ErrorCode::InvalidSyntax),
            None => self.parser.error(ErrorCode::EOFWhileParsingValue),
        }
    }

    fn build_array(&mut self) -> (r: Result<Json, BuilderError>)
        requires
            old(self).parser().wf(),
        ensures
            (final(self).parser(), json_result(r)) == build_array(old(self).parser()),
            final(self).parser().wf(),
            final(self).parser().reads_on(old(self).parser()),
        decreases old(self).parser().remaining(), 1int, 0int,
    {
        proof {
            lemma_step_progress(self.parser());
        }
        self.bump();
        let mut values: Vec<Json> = Vec::new();
        proof {
            lemma_items_view(values@);
            assert(items_view(values@) =~= Seq::<JsonView>::empty());
        }
        loop
            invariant
                self.parser().wf(),
                self.parser().reads_on(old(self).parser()),
                self.parser().remaining() < old(self).parser().remaining() || (
                self.parser().remaining() == old(self).parser().remaining() && rank(self.token())
                    == 0),
                build_array_from(self.parser(), self.token(), items_view(values@)) == build_array(
                    old(self).parser(),
                ),
            decreases self.parser().remaining(), rank(self.token()),
        {
            if let Some(JsonEvent::ArrayEnd) = self.token {
                return Ok(Json::Array(values));
            }
            let ghost items = items_view(values@);
            match self.build_value() {
                Ok(v) => {
                    proof {
                        lemma_items_view(values@);
                        lemma_items_view(values@.push(v));
                        assert(items_view(values@.push(v)) =~= items.push(v@));
                    }
                    values.push(v)
                },
                Err(e) => {
                    return Err(e)
                },
            }
            proof {
                lemma_step_progress(self.parser());
            }
            self.bump();
        }
    }

    fn build_object(&mut self) -> (r: Result<Json, BuilderError>)
        requires
            old(self).parser().wf(),
        ensures
            (final(self).parser(), json_result(r)) == build_object(old(self).parser()),
            final(self).parser().wf(),
            final(self).parser().reads_on(old(self).parser()),
        decreases old(self).parser().remaining(), 1int, 0int,
    {
        proof {
            lemma_step_progress(self.parser());
        }
        self.bump();

        let mut values = Object::new();

        loop
            invariant
                self.parser().wf(),
                self.parser().reads_on(old(self).parser()),
                self.parser().remaining() < old(self).parser().remaining() || (
                self.parser().remaining() == old(self).parser().remaining() && rank(self.token())
                    == 0),
                build_object_from(self.parser(), self.token(), values@) == build_object(
                    old(self).parser(),
                ),
            decreases self.parser().remaining(), rank(self.token()),
        {
            match &self.token {
                Some(JsonEvent::ObjectEnd) => {
                    return Ok(Json::Object(values));
                },
                Some(JsonEvent::Error(e)) => {
                    return Err(*e);
                },
                None => {
                    return self.parser.error(ErrorCode::EOFWhileParsingObject);
                },
                _ => {},
            }
            let key = match self.parser.stack().top() {
                Some(StackElement::Key(k)) => k.to_owned(),
                _ => {
                    return self.parser.error(ErrorCode::InvalidSyntax);
                },
            };
            match self.build_value() {
                Ok(value) => {
                    values.insert(key, value);
                },
                Err(e) => {
                    return Err(e);
                },
            }
            proof {
                lemma_step_progress(self.parser());
            }
            self.bump();
        }
    }
}

impl Json {
    /// Decodes a json value from a string
    pub fn from_str(s: &str) -> (r: Result<Json, BuilderError>)
        ensures
            json_result(r) == parse_document(s@),
    {
        let text = crate::json::text::chars_of(s);
        if text.len() > usize::MAX - 3 {
            return Err(ParserError::IoError);
        }
        let mut builder = Builder::new(text);
        builder.build()
    }
}

impl core::str::FromStr for Json {
    type Err = ParserError;

    fn from_str(s: &str) -> (r: Result<Json, ParserError>)
        ensures
            json_result(r) == parse_document(s@),
    {
        Json::from_str(s)
    }
}

} // verus!
