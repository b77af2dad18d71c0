//! Writing values as JSON text, compact or indented.

use vstd::prelude::*;
use crate::json::error::EncoderError;
use crate::json::float::Float;
use crate::json::text::{decimal, push_decimal, push_signed_decimal, signed_decimal, string_of};
use crate::json::value::{Json, JsonView, Object};

verus! {

pub type EncodeResult<T> = Result<T, EncoderError>;

/// The hexadecimal digit of a number below sixteen, in lower case.
pub open spec fn hex_digit(n: nat) -> char
    recommends
        n < 16,
{
    if n < 10 {
        (n + 48) as char
    } else {
        (n + 87) as char
    }
}

/// How one character of a string is written: a quote, a backslash and a
/// control character escaped, any other character as it is.
pub open spec fn escape_one(c: char) -> Seq<char> {
    if c == '"' {
        seq!['\\', '"']
    } else if c == '\\' {
        seq!['\\', '\\']
    } else if c == '\x08' {
        seq!['\\', 'b']
    } else if c == '\t' {
        seq!['\\', 't']
    } else if c == '\n' {
        seq!['\\', 'n']
    } else if c == '\x0c' {
        seq!['\\', 'f']
    } else if c == '\r' {
        seq!['\\', 'r']
    } else if c as u32 <= 0x1f || c as u32 == 0x7f {
        seq!['\\', 'u', '0', '0', hex_digit((c as u32 / 16) as nat), hex_digit((c as u32 % 16) as nat)]
    } else {
        seq![c]
    }
}

/// The characters of a string, each written as [`escape_one`] says.
pub open spec fn escape_body(s: Seq<char>) -> Seq<char>
    decreases s.len(),
{
    if s.len() == 0 {
        Seq::empty()
    } else {
        escape_body(s.drop_last()) + escape_one(s.last())
    }
}

/// A string as JSON writes it: between quotes, with escapes.
pub open spec fn escaped(s: Seq<char>) -> Seq<char> {
    seq!['"'] + escape_body(s) + seq!['"']
}

/// `n` spaces.
pub open spec fn spaces_text(n: nat) -> Seq<char> {
    Seq::new(n, |i: int| ' ')
}

/// A text between quotes.
pub open spec fn quoted(text: Seq<char>) -> Seq<char> {
    seq!['"'] + text + seq!['"']
}

/// How the text is laid out.
#[derive(Clone, Copy, PartialEq, Eq, Debug, Structural)]
pub enum EncodingFormat {
    /// Without any white space.
    Compact,
    /// One element per line, each nesting level `indent` columns further
    /// in; `level` is the number of containers that are open.
    Pretty { level: u32, indent: u32 },
}

impl EncodingFormat {
    /// Whether the layout is the indented one.
    pub open spec fn is_pretty(self) -> bool {
        self is Pretty
    }

    /// The layout one nesting level further in.
    pub open spec fn deeper(self) -> EncodingFormat {
        match self {
            EncodingFormat::Compact => EncodingFormat::Compact,
            EncodingFormat::Pretty { level, indent } => EncodingFormat::Pretty {
                level: level.wrapping_add(1),
                indent,
            },
        }
    }

    /// The layout one nesting level further out.
    pub open spec fn shallower(self) -> EncodingFormat {
        match self {
            EncodingFormat::Compact => EncodingFormat::Compact,
            EncodingFormat::Pretty { level, indent } => EncodingFormat::Pretty {
                level: level.wrapping_sub(1),
                indent,
            },
        }
    }

    /// The indentation of the current level: nothing in the compact layout.
    pub open spec fn indentation(self) -> Seq<char> {
        match self {
            EncodingFormat::Compact => Seq::empty(),
            EncodingFormat::Pretty { level, indent } => spaces_text((level * indent) as nat),
        }
    }

    /// What starts a line at the current level: nothing in the compact
    /// layout.
    pub open spec fn newline(self) -> Seq<char> {
        match self {
            EncodingFormat::Compact => Seq::empty(),
            EncodingFormat::Pretty { level, indent } => seq!['\n'] + spaces_text(
                (level * indent) as nat,
            ),
        }
    }

    /// What stands between a key and its value.
    pub open spec fn colon(self) -> Seq<char> {
        match self {
            EncodingFormat::Compact => seq![':'],
            EncodingFormat::Pretty { .. } => seq![':', ' '],
        }
    }

    /// What stands before the element at place `idx` of a container.
    pub open spec fn separator(self, idx: usize) -> Seq<char> {
        (if idx != 0 {
            seq![',']
        } else {
            Seq::<char>::empty()
        }) + self.newline()
    }

    /// The layout with another width of indentation, at the same nesting
    /// level.
    pub open spec fn with_indent(self, new_indent: u32) -> EncodingFormat {
        match self {
            EncodingFormat::Compact => EncodingFormat::Compact,
            EncodingFormat::Pretty { level, indent } => EncodingFormat::Pretty {
                level,
                indent: new_indent,
            },
        }
    }
}

/// A number as it is written: as it is, or between quotes as a key.
pub open spec fn number_text(text: Seq<char>, as_key: bool) -> Seq<char> {
    if as_key {
        quoted(text)
    } else {
        text
    }
}

/// The elements of an array from the first to the one before `n`, each
/// after its separator.
pub open spec fn elements_text(items: Seq<JsonView>, format: EncodingFormat, n: int) -> Seq<char>
    decreases items, n,
{
    if n <= 0 || n > items.len() {
        Seq::empty()
    } else {
        elements_text(items, format, n - 1) + format.separator((n - 1) as usize) + json_text(
            items[n - 1],
            format,
        )
    }
}

/// The entries of an object from the first to the one before `n`, each
/// after its separator, the key before the value.
pub open spec fn entries_text(
    entries: Seq<(Seq<char>, JsonView)>,
    format: EncodingFormat,
    n: int,
) -> Seq<char>
    decreases entries, n,
{
    if n <= 0 || n > entries.len() {
        Seq::empty()
    } else {
        entries_text(entries, format, n - 1) + format.separator((n - 1) as usize) + escaped(
            entries[n - 1].0,
        ) + format.colon() + json_text(entries[n - 1].1, format)
    }
}

/// The text of a value in a layout. A number is written in decimal, a
/// string between quotes, a container between its brackets with commas
/// between its elements; the indented layout puts each element on a line of
/// its own.
pub open spec fn json_text(v: JsonView, format: EncodingFormat) -> Seq<char>
    decreases v, 0int,
{
    match v {
        JsonView::I64(n) => signed_decimal(n as int),
        JsonView::U64(n) => decimal(n as nat),
        JsonView::F64(f) => f.text(),
        JsonView::String(s) => escaped(s),
        JsonView::Boolean(b) => if b {
            seq!['t', 'r', 'u', 'e']
        } else {
            seq!['f', 'a', 'l', 's', 'e']
        },
        JsonView::Array(items) => if items.len() == 0 {
            seq!['[', ']']
        } else {
            seq!['['] + elements_text(items, format.deeper(), items.len() as int)
                + format.newline() + seq![']']
        },
        JsonView::Object(entries) => if entries.len() == 0 {
            seq!['{', '}']
        } else {
            seq!['{'] + entries_text(entries, format.deeper(), entries.len() as int)
                + format.newline() + seq!['}']
        },
        JsonView::Null => seq!['n', 'u', 'l', 'l'],
    }
}

/// The text of a value that stands as the key of a map: a number between
/// quotes, a string as it is written anyway; no other value can be a key.
pub open spec fn key_text(v: JsonView) -> Option<Seq<char>> {
    match v {
        JsonView::I64(n) => Some(quoted(signed_decimal(n as int))),
        JsonView::U64(n) => Some(quoted(decimal(n as nat))),
        JsonView::F64(f) => Some(quoted(f.text())),
        JsonView::String(s) => Some(escaped(s)),
        _ => None,
    }
}

/// The mathematical value of an [`Encoder`].
pub struct EncoderView {
    /// What has been written.
    pub output: Seq<char>,
    /// The layout, with the current indentation.
    pub format: EncodingFormat,
    /// Whether what is written next is the key of a map.
    pub is_emitting_map_key: bool,
}

impl EncoderView {
    /// The encoder after `text` has been written.
    pub open spec fn write(self, text: Seq<char>) -> EncoderView {
        EncoderView { output: self.output + text, ..self }
    }

    /// The encoder with another layout.
    pub open spec fn with_format(self, format: EncodingFormat) -> EncoderView {
        EncoderView { format, ..self }
    }

    /// The encoder told whether a key is written next.
    pub open spec fn with_key(self, is_emitting_map_key: bool) -> EncoderView {
        EncoderView { is_emitting_map_key, ..self }
    }

    /// The encoder after a container has been opened with `bracket`.
    pub open spec fn open(self, bracket: char) -> EncoderView {
        self.write(seq![bracket]).with_format(self.format.deeper())
    }

    /// The encoder after a container has been closed with `bracket`.
    pub open spec fn close(self, bracket: char) -> EncoderView {
        let format = self.format.shallower();
        self.with_format(format).write(format.newline() + seq![bracket])
    }

    /// The encoder before the element at place `idx` of a sequence.
    pub open spec fn before_element(self, idx: usize) -> EncoderView {
        self.write(self.format.separator(idx))
    }

    /// The encoder before the value of the field `name` at place `idx` of a
    /// struct.
    pub open spec fn before_field(self, name: Seq<char>, idx: usize) -> EncoderView {
        self.write(self.format.separator(idx) + escaped(name) + self.format.colon())
    }

    /// The encoder before the key at place `idx` of a map.
    pub open spec fn before_key(self, idx: usize) -> EncoderView {
        self.write(self.format.separator(idx)).with_key(true)
    }

    /// The encoder before the value that follows a key.
    pub open spec fn before_value(self) -> EncoderView {
        self.write(self.format.colon())
    }

    /// The encoder before the fields of the variant `name` of an enum:
    /// inside an object with the name under `variant`, inside the array
    /// under `fields`.
    pub open spec fn variant_open(self, name: Seq<char>) -> EncoderView {
        let inner = self.format.deeper();
        self.write(
            seq!['{'] + inner.newline() + seq!['"', 'v', 'a', 'r', 'i', 'a', 'n', 't', '"']
                + inner.colon() + escaped(name) + seq![','] + inner.newline()
                + seq!['"', 'f', 'i', 'e', 'l', 'd', 's', '"'] + inner.colon() + seq!['[']
                + (if inner.is_pretty() {
                seq!['\n']
            } else {
                Seq::<char>::empty()
            }),
        ).with_format(inner.deeper())
    }

    /// The encoder after the fields of a variant: the array and the object
    /// are closed.
    pub open spec fn variant_close(self) -> EncoderView {
        let inner = self.format.shallower();
        let outer = inner.shallower();
        self.write(inner.newline() + seq![']'] + outer.newline() + seq!['}']).with_format(outer)
    }

    /// The encoder before the field at place `idx` of a variant.
    pub open spec fn before_variant_arg(self, idx: usize) -> EncoderView {
        self.write(
            if idx != 0 {
                seq![','] + self.format.newline()
            } else {
                self.format.indentation()
            },
        )
    }

    /// What encoding the value `v` makes of the encoder, and whether it
    /// succeeds: the text of `v` is written, or its text as a key where a
    /// key is due; a value that cannot be a key is an error there, and
    /// nothing is written.
    pub open spec fn encode_json(self, v: JsonView) -> (EncoderView, EncodeResult<()>) {
        if self.is_emitting_map_key {
            match key_text(v) {
                Some(text) => (self.write(text), Ok(())),
                None => (self, Err(EncoderError::BadHashmapKey)),
            }
        } else {
            (self.write(json_text(v, self.format)), Ok(()))
        }
    }
}

/// Writes the string `v` to `wr`, between quotes and with escapes.
pub fn escape_str(wr: &mut Vec<char>, v: &str)
    ensures
        final(wr)@ == old(wr)@ + escaped(v@),
{
    wr.push('"');
    let ghost start = wr@;
    for c in it: v.chars()
        invariant
            it.seq() == v@,
            wr@ == start + escape_body(v@.take(it.index())),
    {
        proof {
            assert(v@.take(it.index() + 1).drop_last() =~= v@.take(it.index()));
        }
        escape_char_body(wr, c);
        proof {
            let t = v@.take(it.index() + 1);
            assert(t.last() == c);
            assert(start + escape_body(t.drop_last()) + escape_one(c) =~= start + escape_body(t));
        }
    }
    wr.push('"');
    proof {
        assert(v@.take(v@.len() as int) =~= v@);
        assert(wr@ =~= old(wr)@ + escaped(v@));
    }
}

// The hexadecimal digit of a number below sixteen.
fn hex_digit_of(n: u32) -> (r: char)
    requires
        n < 16,
    ensures
        r == hex_digit(n as nat),
{
    if n < 10 {
        ((n as u8) + 48) as char
    } else {
        ((n as u8) + 87) as char
    }
}

// Writes one character of a string, escaped where it has to be.
fn escape_char_body(wr: &mut Vec<char>, c: char)
    ensures
        final(wr)@ == old(wr)@ + escape_one(c),
{
    let code = c as u32;
    if c == '"' {
        wr.push('\\');
        wr.push('"');
    } else if c == '\\' {
        wr.push('\\');
        wr.push('\\');
    } else if c == '\x08' {
        wr.push('\\');
        wr.push('b');
    } else if c == '\t' {
        wr.push('\\');
        wr.push('t');
    } else if c == '\n' {
        wr.push('\\');
        wr.push('n');
    } else if c == '\x0c' {
        wr.push('\\');
        wr.push('f');
    } else if c == '\r' {
        wr.push('\\');
        wr.push('r');
    } else if code <= 0x1f || code == 0x7f {
        wr.push('\\');
        wr.push('u');
        wr.push('0');
        wr.push('0');
        wr.push(hex_digit_of(code / 16));
        wr.push(hex_digit_of(code % 16));
    } else {
        wr.push(c);
    }
    proof {
        assert(wr@ =~= old(wr)@ + escape_one(c));
    }
}

/// Writes the character `v` to `writer` as a string of its own.
pub fn escape_char(writer: &mut Vec<char>, v: char)
    ensures
        final(writer)@ == old(writer)@ + escaped(seq![v]),
{
    writer.push('"');
    escape_char_body(writer, v);
    writer.push('"');
    proof {
        assert(seq![v].drop_last() =~= Seq::<char>::empty());
        assert(escape_body(Seq::<char>::empty()) =~= Seq::<char>::empty());
        assert(seq![v].last() == v);
        assert(escape_body(seq![v]) =~= escape_one(v));
        assert(writer@ =~= old(writer)@ + escaped(seq![v]));
    }
}

/// Writes `n` spaces to `wr`.
pub fn spaces(wr: &mut Vec<char>, n: u32)
    ensures
        final(wr)@ == old(wr)@ + spaces_text(n as nat),
{
    let mut i: u32 = 0;
    while i < n
        invariant
            i <= n,
            wr@ =~= old(wr)@ + spaces_text(i as nat),
        decreases n - i,
    {
        wr.push(' ');
        i += 1;
    }
}

/// The text of a floating-point number: its numeral, which always has a
/// point, or `null` for one that is not finite.
pub fn fmt_number_or_null(v: &Float) -> (r: String)
    ensures
        r@ == v@.text(),
{
    let mut out: Vec<char> = Vec::new();
    v.write(&mut out);
    string_of(&out)
}

/// A structure for implementing serialization to JSON.
pub struct Encoder {
    writer: Vec<char>,
    format: EncodingFormat,
    is_emitting_map_key: bool,
}

impl View for Encoder {
    type V = EncoderView;

    closed spec fn view(&self) -> EncoderView {
        EncoderView {
            output: self.writer@,
            format: self.format,
            is_emitting_map_key: self.is_emitting_map_key,
        }
    }
}

impl Encoder {
    /// Creates a new encoder whose output will be written in human-readable
    /// JSON, indented by two columns for each level.
    pub fn new_pretty() -> (r: Encoder)
        ensures
            r@ == (EncoderView {
                output: Seq::empty(),
                format: EncodingFormat::Pretty { level: 0, indent: 2 },
                is_emitting_map_key: false,
            }),
    {
        Encoder {
            writer: Vec::new(),
            format: EncodingFormat::Pretty { level: 0, indent: 2 },
            is_emitting_map_key: false,
        }
    }

    /// Creates a new encoder whose output will be written in compact
    /// JSON.
    pub fn new() -> (r: Encoder)
        ensures
            r@ == (EncoderView {
                output: Seq::empty(),
                format: EncodingFormat::Compact,
                is_emitting_map_key: false,
            }),
    {
        Encoder { writer: Vec::new(), format: EncodingFormat::Compact, is_emitting_map_key: false }
    }

    /// Set the number of spaces to indent for each level.
    /// This is safe to set during encoding.
    pub fn set_indent(&mut self, new_indent: u32) -> (r: Result<(), ()>)
        ensures
            final(self)@ == old(self)@.with_format(old(self)@.format.with_indent(new_indent)),
            r is Ok == old(self)@.format.is_pretty(),
    {
        if let EncodingFormat::Pretty { level, .. } = self.format {
            self.format = EncodingFormat::Pretty { level, indent: new_indent };
            Ok(())
        } else {
            Err(())
        }
    }

    /// Whether what is written next is the key of a map.
    pub fn is_emitting_map_key(&self) -> (r: bool)
        ensures
            r == self@.is_emitting_map_key,
    {
        self.is_emitting_map_key
    }

    /// What has been written so far.
    pub fn output(&self) -> (r: String)
        ensures
            r@ == self@.output,
    {
        string_of(&self.writer)
    }

    /// The text that has been written.
    pub fn into_string(self) -> (r: String)
        ensures
            r@ == self@.output,
    {
        string_of(&self.writer)
    }

    // Writes the characters of `text`.
    fn write(&mut self, text: &str)
        ensures
            final(self)@ == old(self)@.write(text@),
    {
        crate::json::text::push_str(&mut self.writer, text);
    }

    // Writes one character.
    pub(crate) fn put(&mut self, c: char)
        ensures
            final(self)@ == old(self)@.write(seq![c]),
    {
        self.writer.push(c);
        proof {
            assert(self.writer@ =~= old(self).writer@ + seq![c]);
        }
    }

    // Writes the indentation of the current level.
    fn indentation(&mut self)
        ensures
            final(self)@ == old(self)@.write(old(self)@.format.indentation()),
    {
        if let EncodingFormat::Pretty { level, indent } = self.format {
            let mut i: u32 = 0;
            while i < level
                invariant
                    i <= level,
                    self.format == old(self).format,
                    self.is_emitting_map_key == old(self).is_emitting_map_key,
                    self.writer@ =~= old(self).writer@ + spaces_text((i * indent) as nat),
                decreases level - i,
            {
                proof {
                    assert((i + 1) * indent == i * indent + indent) by (nonlinear_arith);
                    assert(i * indent >= 0) by (nonlinear_arith)
                        requires
                            i >= 0,
                            indent >= 0,
                    ;
                }
                spaces(&mut self.writer, indent);
                i += 1;
            }
        }
        proof {
            assert(self.writer@ =~= old(self).writer@ + old(self)@.format.indentation());
        }
    }

    // Starts a line at the current level, in the indented layout.
    pub(crate) fn newline(&mut self)
        ensures
            final(self)@ == old(self)@.write(old(self)@.format.newline()),
    {
        if let EncodingFormat::Pretty { .. } = self.format {
            self.writer.push('\n');
            self.indentation();
        }
        proof {
            assert(self.writer@ =~= old(self).writer@ + old(self)@.format.newline());
        }
    }

    // Writes what stands before the element at `idx`.
    pub(crate) fn separator(&mut self, idx: usize)
        ensures
            final(self)@ == old(self)@.write(old(self)@.format.separator(idx)),
    {
        if idx != 0 {
            self.writer.push(',');
        }
        self.newline();
        proof {
            assert(self.writer@ =~= old(self).writer@ + old(self)@.format.separator(idx));
        }
    }

    // Writes what stands between a key and its value.
    pub(crate) fn colon(&mut self)
        ensures
            final(self)@ == old(self)@.write(old(self)@.format.colon()),
    {
        self.writer.push(':');
        if let EncodingFormat::Pretty { .. } = self.format {
            self.writer.push(' ');
        }
        proof {
            assert(self.writer@ =~= old(self).writer@ + old(self)@.format.colon());
        }
    }

    // Opens a container: one level further in.
    pub(crate) fn open(&mut self, bracket: char)
        ensures
            final(self)@ == old(self)@.open(bracket),
    {
        self.writer.push(bracket);
        if let EncodingFormat::Pretty { level, indent } = self.format {
            self.format = EncodingFormat::Pretty { level: level.wrapping_add(1), indent };
        }
        proof {
            assert(self.writer@ =~= old(self).writer@ + seq![bracket]);
        }
    }

    // Closes a container: one level further out.
    pub(crate) fn close(&mut self, bracket: char)
        ensures
            final(self)@ == old(self)@.close(bracket),
    {
        if let EncodingFormat::Pretty { level, indent } = self.format {
            self.format = EncodingFormat::Pretty { level: level.wrapping_sub(1), indent };
        }
        self.newline();
        self.writer.push(bracket);
        proof {
            assert(self.writer@ =~= old(self).writer@ + (old(self)@.format.shallower().newline()
                + seq![bracket]));
        }
    }

    // Writes the numeral of an unsigned number, between quotes as a key.
    fn emit_unsigned(&mut self, v: u64) -> (r: EncodeResult<()>)
        ensures
            r == Ok::<(), EncoderError>(()),
            final(self)@ == old(self)@.write(
                number_text(decimal(v as nat), old(self)@.is_emitting_map_key),
            ),
    {
        if self.is_emitting_map_key {
            self.writer.push('"');
            push_decimal(&mut self.writer, v);
            self.writer.push('"');
        } else {
            push_decimal(&mut self.writer, v);
        }
        proof {
            assert(self.writer@ =~= old(self).writer@ + number_text(
                decimal(v as nat),
                old(self)@.is_emitting_map_key,
            ));
        }
        Ok(())
    }

    // Writes the numeral of a signed number, between quotes as a key.
    fn emit_signed(&mut self, v: i64) -> (r: EncodeResult<()>)
        ensures
            r == Ok::<(), EncoderError>(()),
            final(self)@ == old(self)@.write(
                number_text(signed_decimal(v as int), old(self)@.is_emitting_map_key),
            ),
    {
        if self.is_emitting_map_key {
            self.writer.push('"');
            push_signed_decimal(&mut self.writer, v);
            self.writer.push('"');
        } else {
            push_signed_decimal(&mut self.writer, v);
        }
        proof {
            assert(self.writer@ =~= old(self).writer@ + number_text(
                signed_decimal(v as int),
                old(self)@.is_emitting_map_key,
            ));
        }
        Ok(())
    }

    /// Writes `null`; as a key it is an error.
    pub fn emit_nil(&mut self) -> (r: EncodeResult<()>)
        ensures
            old(self)@.is_emitting_map_key ==> r == Err::<(), EncoderError>(
                EncoderError::BadHashmapKey,
            ) && final(self)@ == old(self)@,
            !old(self)@.is_emitting_map_key ==> r == Ok::<(), EncoderError>(()) && final(self)@ == old(self)@.write(
                seq!['n', 'u', 'l', 'l'],
            ),
    {
        if self.is_emitting_map_key {
            return Err(EncoderError::BadHashmapKey);
        }
        proof {
            reveal_strlit("null");
            assert("null"@ =~= seq!['n', 'u', 'l', 'l']);
        }
        self.write("null");
        Ok(())
    }

    pub fn emit_usize(&mut self, v: usize) -> (r: EncodeResult<()>)
        ensures
            r == Ok::<(), EncoderError>(()),
            final(self)@ == old(self)@.write(
                number_text(decimal(v as nat), old(self)@.is_emitting_map_key),
            ),
    {
        self.emit_unsigned(v as u64)
    }

    pub fn emit_u64(&mut self, v: u64) -> (r: EncodeResult<()>)
        ensures
            r == Ok::<(), EncoderError>(()),
            final(self)@ == old(self)@.write(
                number_text(decimal(v as nat), old(self)@.is_emitting_map_key),
            ),
    {
        self.emit_unsigned(v)
    }

    pub fn emit_u32(&mut self, v: u32) -> (r: EncodeResult<()>)
        ensures
            r == Ok::<(), EncoderError>(()),
            final(self)@ == old(self)@.write(
                number_text(decimal(v as nat), old(self)@.is_emitting_map_key),
            ),
    {
        self.emit_unsigned(v as u64)
    }

    pub fn emit_u16(&mut self, v: u16) -> (r: EncodeResult<()>)
        ensures
            r == Ok::<(), EncoderError>(()),
            final(self)@ == old(self)@.write(
                number_text(decimal(v as nat), old(self)@.is_emitting_map_key),
            ),
    {
        self.emit_unsigned(v as u64)
    }

    pub fn emit_u8(&mut self, v: u8) -> (r: EncodeResult<()>)
        ensures
            r == Ok::<(), EncoderError>(()),
            final(self)@ == old(self)@.write(
                number_text(decimal(v as nat), old(self)@.is_emitting_map_key),
            ),
    {
        self.emit_unsigned(v as u64)
    }

    pub fn emit_isize(&mut self, v: isize) -> (r: EncodeResult<()>)
        ensures
            r == Ok::<(), EncoderError>(()),
            final(self)@ == old(self)@.write(
                number_text(signed_decimal(v as int), old(self)@.is_emitting_map_key),
            ),
    {
        self.emit_signed(v as i64)
    }

    pub fn emit_i64(&mut self, v: i64) -> (r: EncodeResult<()>)
        ensures
            r == Ok::<(), EncoderError>(()),
            final(self)@ == old(self)@.write(
                number_text(signed_decimal(v as int), old(self)@.is_emitting_map_key),
            ),
    {
        self.emit_signed(v)
    }

    pub fn emit_i32(&mut self, v: i32) -> (r: EncodeResult<()>)
        ensures
            r == Ok::<(), EncoderError>(()),
            final(self)@ == old(self)@.write(
                number_text(signed_decimal(v as int), old(self)@.is_emitting_map_key),
            ),
    {
        self.emit_signed(v as i64)
    }

    pub fn emit_i16(&mut self, v: i16) -> (r: EncodeResult<()>)
        ensures
            r == Ok::<(), EncoderError>(()),
            final(self)@ == old(self)@.write(
                number_text(signed_decimal(v as int), old(self)@.is_emitting_map_key),
            ),
    {
        self.emit_signed(v as i64)
    }

    pub fn emit_i8(&mut self, v: i8) -> (r: EncodeResult<()>)
        ensures
            r == Ok::<(), EncoderError>(()),
            final(self)@ == old(self)@.write(
                number_text(signed_decimal(v as int), old(self)@.is_emitting_map_key),
            ),
    {
        self.emit_signed(v as i64)
    }

    /// Writes `true` or `false`; as a key it is an error.
    pub fn emit_bool(&mut self, v: bool) -> (r: EncodeResult<()>)
        ensures
            old(self)@.is_emitting_map_key ==> r == Err::<(), EncoderError>(
                EncoderError::BadHashmapKey,
            ) && final(self)@ == old(self)@,
            !old(self)@.is_emitting_map_key ==> r == Ok::<(), EncoderError>(()) && final(self)@ == old(self)@.write(
                json_text(JsonView::Boolean(v), old(self)@.format),
            ),
    {
        if self.is_emitting_map_key {
            return Err(EncoderError::BadHashmapKey);
        }
        if v {
            proof {
                reveal_strlit("true");
                assert("true"@ =~= seq!['t', 'r', 'u', 'e']);
            }
            self.write("true");
        } else {
            proof {
                reveal_strlit("false");
                assert("false"@ =~= seq!['f', 'a', 'l', 's', 'e']);
            }
            self.write("false");
        }
        Ok(())
    }

    /// Writes a floating-point number: its numeral, or `null` for one that
    /// is not finite; between quotes as a key.
    pub fn emit_f64(&mut self, v: &Float) -> (r: EncodeResult<()>)
        ensures
            r == Ok::<(), EncoderError>(()),
            final(self)@ == old(self)@.write(
                number_text(v@.text(), old(self)@.is_emitting_map_key),
            ),
    {
        if self.is_emitting_map_key {
            self.writer.push('"');
            v.write(&mut self.writer);
            self.writer.push('"');
        } else {
            v.write(&mut self.writer);
        }
        proof {
            assert(self.writer@ =~= old(self).writer@ + number_text(
                v@.text(),
                old(self)@.is_emitting_map_key,
            ));
        }
        Ok(())
    }

    /// Writes a character as a string of its own.
    pub fn emit_char(&mut self, v: char) -> (r: EncodeResult<()>)
        ensures
            r == Ok::<(), EncoderError>(()),
            final(self)@ == old(self)@.write(escaped(seq![v])),
    {
        escape_char(&mut self.writer, v);
        Ok(())
    }

    /// Writes a string, between quotes and with escapes.
    pub fn emit_str(&mut self, v: &str) -> (r: EncodeResult<()>)
        ensures
            r == Ok::<(), EncoderError>(()),
            final(self)@ == old(self)@.write(escaped(v@)),
    {
        escape_str(&mut self.writer, v);
        Ok(())
    }

    /// Writes a sequence of `len` elements, which `f` writes one by one
    /// with [`Encoder::emit_seq_elt`]: between square brackets. As a key it
    /// is an error; `f` is not called for an empty sequence.
    pub fn emit_seq<F>(&mut self, len: usize, f: F) -> (r: EncodeResult<()>) where
        F: FnOnce(&mut Encoder) -> EncodeResult<()>,

        requires
            forall|e: &mut Encoder| call_requires(f, (e,)),
        ensures
            old(self)@.is_emitting_map_key ==> r == Err::<(), EncoderError>(
                EncoderError::BadHashmapKey,
            ) && final(self)@ == old(self)@,
            !old(self)@.is_emitting_map_key && len == 0 ==> r == Ok::<(), EncoderError>(()) && final(self)@ == old(self)@.write(seq!['[', ']']),
            !old(self)@.is_emitting_map_key && len != 0 ==> exists|e: &mut Encoder|
                (*e)@ == old(self)@.open('[') && #[trigger] call_ensures(f, (e,), r) && final(self)@ == (
                if r is Ok {
                    (*final(e))@.close(']')
                } else {
                    (*final(e))@
                }),
    {
        if self.is_emitting_map_key {
            return Err(EncoderError::BadHashmapKey);
        }
        if len == 0 {
            self.put('[');
            self.put(']');
            assert(self@.output =~= old(self)@.output + seq!['[', ']']);
            Ok(())
        } else {
            self.open('[');
            let done = f(self);
            if done.is_ok() {
                self.close(']');
            }
            done
        }
    }

    /// Writes one element of a sequence, which `f` writes: after a comma,
    /// unless it is the first, and on a line of its own in the indented
    /// layout.
    pub fn emit_seq_elt<F>(&mut self, idx: usize, f: F) -> (r: EncodeResult<()>) where
        F: FnOnce(&mut Encoder) -> EncodeResult<()>,

        requires
            forall|e: &mut Encoder| call_requires(f, (e,)),
        ensures
            old(self)@.is_emitting_map_key ==> r == Err::<(), EncoderError>(
                EncoderError::BadHashmapKey,
            ) && final(self)@ == old(self)@,
            !old(self)@.is_emitting_map_key ==> exists|e: &mut Encoder|
                (*e)@ == old(self)@.before_element(idx) && #[trigger] call_ensures(f, (e,), r)
                    && final(self)@ == (*final(e))@,
    {
        if self.is_emitting_map_key {
            return Err(EncoderError::BadHashmapKey);
        }
        self.separator(idx);
        f(self)
    }

    /// Writes a tuple of `len` elements as a sequence.
    pub fn emit_tuple<F>(&mut self, len: usize, f: F) -> (r: EncodeResult<()>) where
        F: FnOnce(&mut Encoder) -> EncodeResult<()>,

        requires
            forall|e: &mut Encoder| call_requires(f, (e,)),
        ensures
            old(self)@.is_emitting_map_key ==> r == Err::<(), EncoderError>(
                EncoderError::BadHashmapKey,
            ) && final(self)@ == old(self)@,
            !old(self)@.is_emitting_map_key && len == 0 ==> r == Ok::<(), EncoderError>(()) && final(self)@ == old(self)@.write(seq!['[', ']']),
            !old(self)@.is_emitting_map_key && len != 0 ==> exists|e: &mut Encoder|
                (*e)@ == old(self)@.open('[') && #[trigger] call_ensures(f, (e,), r) && final(self)@ == (
                if r is Ok {
                    (*final(e))@.close(']')
                } else {
                    (*final(e))@
                }),
    {
        if self.is_emitting_map_key {
            return Err(EncoderError::BadHashmapKey);
        }
        self.emit_seq(len, f)
    }

    /// Writes one element of a tuple as an element of a sequence.
    pub fn emit_tuple_arg<F>(&mut self, idx: usize, f: F) -> (r: EncodeResult<()>) where
        F: FnOnce(&mut Encoder) -> EncodeResult<()>,

        requires
            forall|e: &mut Encoder| call_requires(f, (e,)),
        ensures
            old(self)@.is_emitting_map_key ==> r == Err::<(), EncoderError>(
                EncoderError::BadHashmapKey,
            ) && final(self)@ == old(self)@,
            !old(self)@.is_emitting_map_key ==> exists|e: &mut Encoder|
                (*e)@ == old(self)@.before_element(idx) && #[trigger] call_ensures(f, (e,), r)
                    && final(self)@ == (*final(e))@,
    {
        if self.is_emitting_map_key {
            return Err(EncoderError::BadHashmapKey);
        }
        self.emit_seq_elt(idx, f)
    }

    /// Writes a tuple struct of `len` fields as a sequence.
    pub fn emit_tuple_struct<F>(&mut self, _name: &str, len: usize, f: F) -> (r: EncodeResult<
        (),
    >) where F: FnOnce(&mut Encoder) -> EncodeResult<()>
        requires
            forall|e: &mut Encoder| call_requires(f, (e,)),
        ensures
            old(self)@.is_emitting_map_key ==> r == Err::<(), EncoderError>(
                EncoderError::BadHashmapKey,
            ) && final(self)@ == old(self)@,
            !old(self)@.is_emitting_map_key && len == 0 ==> r == Ok::<(), EncoderError>(()) && final(self)@ == old(self)@.write(seq!['[', ']']),
            !old(self)@.is_emitting_map_key && len != 0 ==> exists|e: &mut Encoder|
                (*e)@ == old(self)@.open('[') && #[trigger] call_ensures(f, (e,), r) && final(self)@ == (
                if r is Ok {
                    (*final(e))@.close(']')
                } else {
                    (*final(e))@
                }),
    {
        if self.is_emitting_map_key {
            return Err(EncoderError::BadHashmapKey);
        }
        self.emit_seq(len, f)
    }

    /// Writes one field of a tuple struct as an element of a sequence.
    pub fn emit_tuple_struct_arg<F>(&mut self, idx: usize, f: F) -> (r: EncodeResult<()>) where
        F: FnOnce(&mut Encoder) -> EncodeResult<()>,

        requires
            forall|e: &mut Encoder| call_requires(f, (e,)),
        ensures
            old(self)@.is_emitting_map_key ==> r == Err::<(), EncoderError>(
                EncoderError::BadHashmapKey,
            ) && final(self)@ == old(self)@,
            !old(self)@.is_emitting_map_key ==> exists|e: &mut Encoder|
                (*e)@ == old(self)@.before_element(idx) && #[trigger] call_ensures(f, (e,), r)
                    && final(self)@ == (*final(e))@,
    {
        if self.is_emitting_map_key {
            return Err(EncoderError::BadHashmapKey);
        }
        self.emit_seq_elt(idx, f)
    }

    /// Writes an enum, which `f` writes as one of its variants.
    pub fn emit_enum<F>(&mut self, _name: &str, f: F) -> (r: EncodeResult<()>) where
        F: FnOnce(&mut Encoder) -> EncodeResult<()>,

        requires
            forall|e: &mut Encoder| call_requires(f, (e,)),
        ensures
            exists|e: &mut Encoder|
                (*e)@ == old(self)@ && #[trigger] call_ensures(f, (e,), r) && final(self)@ == (
                *final(e))@,
    {
        f(self)
    }

    /// Writes a variant of an enum. One without fields is written as its
    /// name, a string, and `f` is not called. One with `cnt` fields, which
    /// `f` writes one by one with [`Encoder::emit_enum_variant_arg`], is
    /// written as an object: the name under `variant`, the fields as an
    /// array under `fields`. As a key such a variant is an error.
    pub fn emit_enum_variant<F>(&mut self, name: &str, _id: usize, cnt: usize, f: F) -> (r:
        EncodeResult<()>) where F: FnOnce(&mut Encoder) -> EncodeResult<()>
        requires
            forall|e: &mut Encoder| call_requires(f, (e,)),
        ensures
            cnt == 0 ==> r == Ok::<(), EncoderError>(()) && final(self)@ == old(self)@.write(escaped(name@)),
            cnt != 0 && old(self)@.is_emitting_map_key ==> r == Err::<(), EncoderError>(
                EncoderError::BadHashmapKey,
            ) && final(self)@ == old(self)@,
            cnt != 0 && !old(self)@.is_emitting_map_key ==> exists|e: &mut Encoder|
                (*e)@ == old(self)@.variant_open(name@) && #[trigger] call_ensures(f, (e,), r)
                    && final(self)@ == (if r is Ok {
                    (*final(e))@.variant_close()
                } else {
                    (*final(e))@
                }),
    {
        // enums are encoded as strings or objects
        // Bunny => "Bunny"
        // Kangaroo(34,"William") => {"variant": "Kangaroo", "fields": [34,"William"]}
        if cnt == 0 {
            escape_str(&mut self.writer, name);
            Ok(())
        } else {
            if self.is_emitting_map_key {
                return Err(EncoderError::BadHashmapKey);
            }
            let ghost inner = self@.format.deeper();
            self.open('{');
            self.newline();
            proof {
                reveal_strlit("\"variant\"");
                assert("\"variant\""@ =~= seq!['"', 'v', 'a', 'r', 'i', 'a', 'n', 't', '"']);
                reveal_strlit("\"fields\"");
                assert("\"fields\""@ =~= seq!['"', 'f', 'i', 'e', 'l', 'd', 's', '"']);
            }
            self.write("\"variant\"");
            self.colon();
            escape_str(&mut self.writer, name);
            self.put(',');
            self.newline();
            self.write("\"fields\"");
            self.colon();
            self.open('[');
            if let EncodingFormat::Pretty { .. } = self.format {
                self.put('\n');
            }
            proof {
                assert(self@.output =~= old(self)@.variant_open(name@).output);
            }
            let done = f(self);
            if done.is_ok() {
                let ghost mid = self@;
                self.close(']');
                self.close('}');
                proof {
                    assert(self@.output =~= mid.variant_close().output);
                }
            }
            done
        }
    }

    /// Writes one field of a variant, which `f` writes: after a comma,
    /// unless it is the first, and on a line of its own in the indented
    /// layout.
    pub fn emit_enum_variant_arg<F>(&mut self, idx: usize, f: F) -> (r: EncodeResult<()>) where
        F: FnOnce(&mut Encoder) -> EncodeResult<()>,

        requires
            forall|e: &mut Encoder| call_requires(f, (e,)),
        ensures
            old(self)@.is_emitting_map_key ==> r == Err::<(), EncoderError>(
                EncoderError::BadHashmapKey,
            ) && final(self)@ == old(self)@,
            !old(self)@.is_emitting_map_key ==> exists|e: &mut Encoder|
                (*e)@ == old(self)@.before_variant_arg(idx) && #[trigger] call_ensures(f, (e,), r)
                    && final(self)@ == (*final(e))@,
    {
        if self.is_emitting_map_key {
            return Err(EncoderError::BadHashmapKey);
        }
        if idx != 0 {
            self.put(',');
            self.newline();
            proof {
                assert(self@.output =~= old(self)@.before_variant_arg(idx).output);
            }
        } else {
            self.indentation();
            proof {
                assert(self@.output =~= old(self)@.before_variant_arg(idx).output);
            }
        }
        f(self)
    }

    /// Writes a variant with named fields like any other variant; as a key
    /// it is an error, with fields or without.
    pub fn emit_enum_struct_variant<F>(&mut self, name: &str, id: usize, cnt: usize, f: F) -> (r:
        EncodeResult<()>) where F: FnOnce(&mut Encoder) -> EncodeResult<()>
        requires
            forall|e: &mut Encoder| call_requires(f, (e,)),
        ensures
            old(self)@.is_emitting_map_key ==> r == Err::<(), EncoderError>(
                EncoderError::BadHashmapKey,
            ) && final(self)@ == old(self)@,
            !old(self)@.is_emitting_map_key && cnt == 0 ==> r == Ok::<(), EncoderError>(()) && final(self)@ == old(self)@.write(escaped(name@)),
            !old(self)@.is_emitting_map_key && cnt != 0 ==> exists|e: &mut Encoder|
                (*e)@ == old(self)@.variant_open(name@) && #[trigger] call_ensures(f, (e,), r)
                    && final(self)@ == (if r is Ok {
                    (*final(e))@.variant_close()
                } else {
                    (*final(e))@
                }),
    {
        if self.is_emitting_map_key {
            return Err(EncoderError::BadHashmapKey);
        }
        self.emit_enum_variant(name, id, cnt, f)
    }

    /// Writes one named field of a variant like any other field of a
    /// variant.
    pub fn emit_enum_struct_variant_field<F>(&mut self, _name: &str, idx: usize, f: F) -> (r:
        EncodeResult<()>) where F: FnOnce(&mut Encoder) -> EncodeResult<()>
        requires
            forall|e: &mut Encoder| call_requires(f, (e,)),
        ensures
            old(self)@.is_emitting_map_key ==> r == Err::<(), EncoderError>(
                EncoderError::BadHashmapKey,
            ) && final(self)@ == old(self)@,
            !old(self)@.is_emitting_map_key ==> exists|e: &mut Encoder|
                (*e)@ == old(self)@.before_variant_arg(idx) && #[trigger] call_ensures(f, (e,), r)
                    && final(self)@ == (*final(e))@,
    {
        if self.is_emitting_map_key {
            return Err(EncoderError::BadHashmapKey);
        }
        self.emit_enum_variant_arg(idx, f)
    }

    /// Writes a struct of `len` fields, which `f` writes one by one with
    /// [`Encoder::emit_struct_field`]: as an object. As a key it is an
    /// error; `f` is not called for a struct without fields.
    pub fn emit_struct<F>(&mut self, _name: &str, len: usize, f: F) -> (r: EncodeResult<()>) where
        F: FnOnce(&mut Encoder) -> EncodeResult<()>,

        requires
            forall|e: &mut Encoder| call_requires(f, (e,)),
        ensures
            old(self)@.is_emitting_map_key ==> r == Err::<(), EncoderError>(
                EncoderError::BadHashmapKey,
            ) && final(self)@ == old(self)@,
            !old(self)@.is_emitting_map_key && len == 0 ==> r == Ok::<(), EncoderError>(()) && final(self)@ == old(self)@.write(seq!['{', '}']),
            !old(self)@.is_emitting_map_key && len != 0 ==> exists|e: &mut Encoder|
                (*e)@ == old(self)@.open('{') && #[trigger] call_ensures(f, (e,), r) && final(self)@ == (
                if r is Ok {
                    (*final(e))@.close('}')
                } else {
                    (*final(e))@
                }),
    {
        self.emit_braces(len, f)
    }

    // Writes what `f` writes between braces, or an empty pair of braces.
    fn emit_braces<F>(&mut self, len: usize, f: F) -> (r: EncodeResult<()>) where
        F: FnOnce(&mut Encoder) -> EncodeResult<()>,

        requires
            forall|e: &mut Encoder| call_requires(f, (e,)),
        ensures
            old(self)@.is_emitting_map_key ==> r == Err::<(), EncoderError>(
                EncoderError::BadHashmapKey,
            ) && final(self)@ == old(self)@,
            !old(self)@.is_emitting_map_key && len == 0 ==> r == Ok::<(), EncoderError>(()) && final(self)@ == old(self)@.write(seq!['{', '}']),
            !old(self)@.is_emitting_map_key && len != 0 ==> exists|e: &mut Encoder|
                (*e)@ == old(self)@.open('{') && #[trigger] call_ensures(f, (e,), r) && final(self)@ == (
                if r is Ok {
                    (*final(e))@.close('}')
                } else {
                    (*final(e))@
                }),
    {
        if self.is_emitting_map_key {
            return Err(EncoderError::BadHashmapKey);
        }
        if len == 0 {
            self.put('{');
            self.put('}');
            assert(self@.output =~= old(self)@.output + seq!['{', '}']);
            Ok(())
        } else {
            self.open('{');
            let done = f(self);
            if done.is_ok() {
                self.close('}');
            }
            done
        }
    }

    /// Writes one field of a struct: its name as a key, a colon, and the
    /// value, which `f` writes.
    pub fn emit_struct_field<F>(&mut self, name: &str, idx: usize, f: F) -> (r: EncodeResult<
        (),
    >) where F: FnOnce(&mut Encoder) -> EncodeResult<()>
        requires
            forall|e: &mut Encoder| call_requires(f, (e,)),
        ensures
            old(self)@.is_emitting_map_key ==> r == Err::<(), EncoderError>(
                EncoderError::BadHashmapKey,
            ) && final(self)@ == old(self)@,
            !old(self)@.is_emitting_map_key ==> exists|e: &mut Encoder|
                (*e)@ == old(self)@.before_field(name@, idx) && #[trigger] call_ensures(f, (e,), r)
                    && final(self)@ == (*final(e))@,
    {
        if self.is_emitting_map_key {
            return Err(EncoderError::BadHashmapKey);
        }
        self.separator(idx);
        escape_str(&mut self.writer, name);
        self.colon();
        proof {
            assert(self@.output =~= old(self)@.before_field(name@, idx).output);
        }
        f(self)
    }

    /// Writes an optional value, which `f` writes as none or as some.
    pub fn emit_option<F>(&mut self, f: F) -> (r: EncodeResult<()>) where
        F: FnOnce(&mut Encoder) -> EncodeResult<()>,

        requires
            forall|e: &mut Encoder| call_requires(f, (e,)),
        ensures
            old(self)@.is_emitting_map_key ==> r == Err::<(), EncoderError>(
                EncoderError::BadHashmapKey,
            ) && final(self)@ == old(self)@,
            !old(self)@.is_emitting_map_key ==> exists|e: &mut Encoder|
                (*e)@ == old(self)@ && #[trigger] call_ensures(f, (e,), r) && final(self)@ == (
                *final(e))@,
    {
        if self.is_emitting_map_key {
            return Err(EncoderError::BadHashmapKey);
        }
        f(self)
    }

    /// Writes the missing value: `null`.
    pub fn emit_option_none(&mut self) -> (r: EncodeResult<()>)
        ensures
            old(self)@.is_emitting_map_key ==> r == Err::<(), EncoderError>(
                EncoderError::BadHashmapKey,
            ) && final(self)@ == old(self)@,
            !old(self)@.is_emitting_map_key ==> r == Ok::<(), EncoderError>(()) && final(self)@ == old(self)@.write(
                seq!['n', 'u', 'l', 'l'],
            ),
    {
        if self.is_emitting_map_key {
            return Err(EncoderError::BadHashmapKey);
        }
        self.emit_nil()
    }

    /// Writes a value that is there, which `f` writes.
    pub fn emit_option_some<F>(&mut self, f: F) -> (r: EncodeResult<()>) where
        F: FnOnce(&mut Encoder) -> EncodeResult<()>,

        requires
            forall|e: &mut Encoder| call_requires(f, (e,)),
        ensures
            old(self)@.is_emitting_map_key ==> r == Err::<(), EncoderError>(
                EncoderError::BadHashmapKey,
            ) && final(self)@ == old(self)@,
            !old(self)@.is_emitting_map_key ==> exists|e: &mut Encoder|
                (*e)@ == old(self)@ && #[trigger] call_ensures(f, (e,), r) && final(self)@ == (
                *final(e))@,
    {
        if self.is_emitting_map_key {
            return Err(EncoderError::BadHashmapKey);
        }
        f(self)
    }

    /// Writes a map of `len` entries, which `f` writes one by one, the key
    /// with [`Encoder::emit_map_elt_key`] and the value with
    /// [`Encoder::emit_map_elt_val`]: as an object. As a key it is an error;
    /// `f` is not called for an empty map.
    pub fn emit_map<F>(&mut self, len: usize, f: F) -> (r: EncodeResult<()>) where
        F: FnOnce(&mut Encoder) -> EncodeResult<()>,

        requires
            forall|e: &mut Encoder| call_requires(f, (e,)),
        ensures
            old(self)@.is_emitting_map_key ==> r == Err::<(), EncoderError>(
                EncoderError::BadHashmapKey,
            ) && final(self)@ == old(self)@,
            !old(self)@.is_emitting_map_key && len == 0 ==> r == Ok::<(), EncoderError>(()) && final(self)@ == old(self)@.write(seq!['{', '}']),
            !old(self)@.is_emitting_map_key && len != 0 ==> exists|e: &mut Encoder|
                (*e)@ == old(self)@.open('{') && #[trigger] call_ensures(f, (e,), r) && final(self)@ == (
                if r is Ok {
                    (*final(e))@.close('}')
                } else {
                    (*final(e))@
                }),
    {
        self.emit_braces(len, f)
    }

    /// Writes the key of one entry of a map, which `f` writes: a number
    /// comes out between quotes, a string as it is, and anything else is an
    /// error. After an error the encoder still waits for a key.
    pub fn emit_map_elt_key<F>(&mut self, idx: usize, f: F) -> (r: EncodeResult<()>) where
        F: FnOnce(&mut Encoder) -> EncodeResult<()>,

        requires
            forall|e: &mut Encoder| call_requires(f, (e,)),
        ensures
            old(self)@.is_emitting_map_key ==> r == Err::<(), EncoderError>(
                EncoderError::BadHashmapKey,
            ) && final(self)@ == old(self)@,
            !old(self)@.is_emitting_map_key ==> exists|e: &mut Encoder|
                (*e)@ == old(self)@.before_key(idx) && #[trigger] call_ensures(f, (e,), r)
                    && final(self)@ == (if r is Ok {
                    (*final(e))@.with_key(false)
                } else {
                    (*final(e))@
                }),
    {
        if self.is_emitting_map_key {
            return Err(EncoderError::BadHashmapKey);
        }
        self.separator(idx);
        self.is_emitting_map_key = true;
        let done = f(self);
        if done.is_ok() {
            self.is_emitting_map_key = false;
        }
        done
    }

    /// Writes the value of one entry of a map, which `f` writes, after a
    /// colon.
    pub fn emit_map_elt_val<F>(&mut self, _idx: usize, f: F) -> (r: EncodeResult<()>) where
        F: FnOnce(&mut Encoder) -> EncodeResult<()>,

        requires
            forall|e: &mut Encoder| call_requires(f, (e,)),
        ensures
            old(self)@.is_emitting_map_key ==> r == Err::<(), EncoderError>(
                EncoderError::BadHashmapKey,
            ) && final(self)@ == old(self)@,
            !old(self)@.is_emitting_map_key ==> exists|e: &mut Encoder|
                (*e)@ == old(self)@.before_value() && #[trigger] call_ensures(f, (e,), r)
                    && final(self)@ == (*final(e))@,
    {
        if self.is_emitting_map_key {
            return Err(EncoderError::BadHashmapKey);
        }
        self.colon();
        f(self)
    }

    /// Writes the value `v`: its text in the encoder's layout, or its text
    /// as a key where a key is due.
    pub fn emit_json(&mut self, v: &Json) -> (r: EncodeResult<()>)
        ensures
            (final(self)@, r) == old(self)@.encode_json(v@),
        decreases v,
    {
        match v {
            Json::I64(n) => self.emit_i64(*n),
            Json::U64(n) => self.emit_u64(*n),
            Json::F64(f) => self.emit_f64(f),
            Json::String(s) => self.emit_str(s.as_str()),
            Json::Boolean(b) => self.emit_bool(*b),
            Json::Null => self.emit_nil(),
            Json::Array(items) => {
                if self.is_emitting_map_key {
                    return Err(EncoderError::BadHashmapKey);
                }
                proof {
                    crate::json::value::lemma_items_view(items@);
                }
                let ghost views = crate::json::value::items_view(items@);
                if items.len() == 0 {
                    self.put('[');
                    self.put(']');
                    assert(self@.output =~= old(self)@.output + seq!['[', ']']);
                    return Ok(());
                }
                self.open('[');
                let ghost opened = self@;
                let mut i: usize = 0;
                while i < items.len()
                    invariant
                        i <= items.len(),
                        decreases_to!(*v => *items),
                        views == crate::json::value::items_view(items@),
                        views.len() == items@.len(),
                        forall|j: int| 0 <= j < views.len() ==> views[j] == items@[j]@,
                        !opened.is_emitting_map_key,
                        self@ == opened.write(elements_text(views, opened.format, i as int)),
                    decreases items.len() - i,
                {
                    proof {
                        vstd::std_specs::vec::axiom_vec_index_decreases(*items, i as int);
                    }
                    self.separator(i);
                    let _ = self.emit_json(&items[i]);
                    proof {
                        assert(self@.output =~= opened.output + elements_text(
                            views,
                            opened.format,
                            i + 1,
                        ));
                    }
                    i += 1;
                }
                self.close(']');
                proof {
                    assert(self@.output =~= old(self)@.output + json_text(v@, old(self)@.format));
                }
                Ok(())
            },
            Json::Object(o) => {
                if self.is_emitting_map_key {
                    return Err(EncoderError::BadHashmapKey);
                }
                proof {
                    crate::json::value::lemma_object_view(*o);
                    crate::json::value::lemma_entries_view(o.entries@);
                }
                let ghost views = o@;
                if o.entries.len() == 0 {
                    self.put('{');
                    self.put('}');
                    assert(self@.output =~= old(self)@.output + seq!['{', '}']);
                    return Ok(());
                }
                self.open('{');
                let ghost opened = self@;
                let mut i: usize = 0;
                while i < o.entries.len()
                    invariant
                        i <= o.entries.len(),
                        decreases_to!(*v => o.entries),
                        views == o@,
                        views.len() == o.entries@.len(),
                        forall|j: int|
                            0 <= j < views.len() ==> views[j] == (
                                o.entries@[j].0@,
                                o.entries@[j].1@,
                            ),
                        !opened.is_emitting_map_key,
                        self@ == opened.write(entries_text(views, opened.format, i as int)),
                    decreases o.entries.len() - i,
                {
                    proof {
                        vstd::std_specs::vec::axiom_vec_index_decreases(o.entries, i as int);
                    }
                    self.separator(i);
                    escape_str(&mut self.writer, o.entries[i].0.as_str());
                    self.colon();
                    let _ = self.emit_json(&o.entries[i].1);
                    proof {
                        assert(self@.output =~= opened.output + entries_text(
                            views,
                            opened.format,
                            i + 1,
                        ));
                    }
                    i += 1;
                }
                self.close('}');
                proof {
                    assert(self@.output =~= old(self)@.output + json_text(v@, old(self)@.format));
                }
                Ok(())
            },
        }
    }
}

impl Json {
    /// The compact text of the value.
    pub fn to_string(&self) -> (r: String)
        ensures
            r@ == json_text(self@, EncodingFormat::Compact),
    {
        let mut encoder = Encoder::new();
        let _ = encoder.emit_json(self);
        encoder.into_string()
    }

    /// Borrow this json object as a pretty object to generate a pretty
    /// representation for it.
    pub fn pretty(&self) -> (r: PrettyJson<'_>)
        ensures
            r.inner()@ == self@,
    {
        PrettyJson { inner: self }
    }
}

/// A value that is written in the indented layout.
pub struct PrettyJson<'a> {
    inner: &'a Json,
}

impl<'a> PrettyJson<'a> {
    /// The value that is written.
    pub closed spec fn inner(&self) -> Json {
        *self.inner
    }

    pub fn new(content: &'a Json) -> (r: PrettyJson<'a>)
        ensures
            r.inner()@ == content@,
    {
        PrettyJson { inner: content }
    }

    /// The text of the value, indented by two columns for each level.
    pub fn to_string(&self) -> (r: String)
        ensures
            r@ == json_text(self.inner()@, EncodingFormat::Pretty { level: 0, indent: 2 }),
    {
        let mut encoder = Encoder::new_pretty();
        let _ = encoder.emit_json(self.inner);
        encoder.into_string()
    }
}

} // verus!
