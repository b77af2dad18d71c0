//! Base64 binary-to-text encoding

use vstd::prelude::*;
use crate::json::text::push_char;

verus! {

/// Available encoding character sets
#[derive(Clone, Copy, PartialEq, Eq, Debug, Structural)]
pub enum CharacterSet {
    /// The standard character set (uses `+` and `/`)
    Standard,
    /// The URL safe character set (uses `-` and `_`)
    UrlSafe,
}

/// Available newline types
#[derive(Clone, Copy, PartialEq, Eq, Debug, Structural)]
pub enum Newline {
    /// A linefeed (i.e. Unix-style newline)
    LF,
    /// A carriage return and a linefeed (i.e. Windows-style newline)
    CRLF,
}

/// Contains configuration parameters for `to_base64`.
#[derive(Clone, Copy, Debug)]
pub struct Config {
    /// Character set to use
    pub char_set: CharacterSet,
    /// Newline to use
    pub newline: Newline,
    /// True to pad output with `=` characters
    pub pad: bool,
    /// `Some(len)` to wrap lines at `len`, `None` to disable line wrapping
    pub line_length: Option<usize>,
}

/// Configuration for RFC 4648 standard base64 encoding
pub fn standard() -> (r: Config)
    ensures
        r.char_set == CharacterSet::Standard,
        r.newline == Newline::CRLF,
        r.pad,
        r.line_length is None,
{
    Config {
        char_set: CharacterSet::Standard,
        newline: Newline::CRLF,
        pad: true,
        line_length: None,
    }
}

/// Configuration for RFC 4648 base64url encoding
pub fn url_safe() -> (r: Config)
    ensures
        r.char_set == CharacterSet::UrlSafe,
        r.newline == Newline::CRLF,
        !r.pad,
        r.line_length is None,
{
    Config {
        char_set: CharacterSet::UrlSafe,
        newline: Newline::CRLF,
        pad: false,
        line_length: None,
    }
}

/// Configuration for RFC 2045 MIME base64 encoding
pub fn mime() -> (r: Config)
    ensures
        r.char_set == CharacterSet::Standard,
        r.newline == Newline::CRLF,
        r.pad,
        r.line_length == Some(76usize),
{
    Config {
        char_set: CharacterSet::Standard,
        newline: Newline::CRLF,
        pad: true,
        line_length: Some(76),
    }
}

/// The character that stands for a number below 64.
pub open spec fn sextet_char(v: int, set: CharacterSet) -> char
    recommends
        0 <= v < 64,
{
    if v < 26 {
        (v + 65) as char
    } else if v < 52 {
        (v - 26 + 97) as char
    } else if v < 62 {
        (v - 52 + 48) as char
    } else if v == 62 {
        match set {
            CharacterSet::Standard => '+',
            CharacterSet::UrlSafe => '-',
        }
    } else {
        match set {
            CharacterSet::Standard => '/',
            CharacterSet::UrlSafe => '_',
        }
    }
}

/// The four characters that stand for three bytes: the 24 bits of the
/// bytes, six at a time.
pub open spec fn group_text(b0: u8, b1: u8, b2: u8, set: CharacterSet) -> Seq<char> {
    seq![
        sextet_char(b0 as int / 4, set),
        sextet_char((b0 as int % 4) * 16 + b1 as int / 16, set),
        sextet_char((b1 as int % 16) * 4 + b2 as int / 64, set),
        sextet_char(b2 as int % 64, set),
    ]
}

/// What ends a line.
pub open spec fn newline_text(newline: Newline) -> Seq<char> {
    match newline {
        Newline::LF => seq!['\n'],
        Newline::CRLF => seq!['\r', '\n'],
    }
}

/// Whether a line that holds `column` characters is full.
pub open spec fn line_full(config: Config, column: int) -> bool {
    match config.line_length {
        Some(len) => column >= len,
        None => false,
    }
}

/// The number of characters in the current line after the first `k` groups
/// of three bytes have been written.
pub open spec fn column_after(config: Config, k: int) -> int
    decreases k,
{
    if k <= 0 {
        0
    } else if line_full(config, column_after(config, k - 1)) {
        4
    } else {
        column_after(config, k - 1) + 4
    }
}

/// The text of the first `k` groups of three bytes: four characters for
/// each, on a new line where the line before is full.
pub open spec fn groups_text(bytes: Seq<u8>, config: Config, k: int) -> Seq<char>
    decreases k,
{
    if k <= 0 || 3 * k > bytes.len() {
        Seq::empty()
    } else {
        groups_text(bytes, config, k - 1) + (if line_full(config, column_after(config, k - 1)) {
            newline_text(config.newline)
        } else {
            Seq::<char>::empty()
        }) + group_text(bytes[3 * k - 3], bytes[3 * k - 2], bytes[3 * k - 1], config.char_set)
    }
}

/// The text of the one or two bytes that are left after the groups of
/// three: two or three characters, filled up to four where that is asked
/// for, on a new line where the line before is full.
pub open spec fn tail_text(bytes: Seq<u8>, config: Config) -> Seq<char> {
    let k = bytes.len() as int / 3;
    let start = (if line_full(config, column_after(config, k)) {
        newline_text(config.newline)
    } else {
        Seq::<char>::empty()
    });
    if bytes.len() - 3 * k == 1 {
        start + tail_one(bytes[3 * k], config)
    } else if bytes.len() - 3 * k == 2 {
        start + tail_two(bytes[3 * k], bytes[3 * k + 1], config)
    } else {
        Seq::empty()
    }
}

/// The base64 text of a sequence of bytes.
pub open spec fn base64_text(bytes: Seq<u8>, config: Config) -> Seq<char> {
    groups_text(bytes, config, bytes.len() as int / 3) + tail_text(bytes, config)
}

// The character that stands for a number below 64.
fn sextet(v: u8, set: CharacterSet) -> (r: char)
    requires
        v < 64,
    ensures
        r == sextet_char(v as int, set),
{
    if v < 26 {
        (v + 65) as char
    } else if v < 52 {
        (v - 26 + 97) as char
    } else if v < 62 {
        (v - 52 + 48) as char
    } else if v == 62 {
        match set {
            CharacterSet::Standard => '+',
            CharacterSet::UrlSafe => '-',
        }
    } else {
        match set {
            CharacterSet::Standard => '/',
            CharacterSet::UrlSafe => '_',
        }
    }
}

// Ends the line.
fn push_newline(out: &mut String, newline: Newline)
    ensures
        final(out)@ == old(out)@ + newline_text(newline),
{
    match newline {
        Newline::LF => {
            push_char(out, '\n');
        },
        Newline::CRLF => {
            push_char(out, '\r');
            push_char(out, '\n');
        },
    }
    proof {
        assert(out@ =~= old(out)@ + newline_text(newline));
    }
}

// Whether a line that holds `column` characters is full.
fn is_line_full(config: &Config, column: u128) -> (r: bool)
    ensures
        r == line_full(*config, column as int),
{
    match config.line_length {
        Some(len) => column >= len as u128,
        None => false,
    }
}

/// A trait for converting a value to base64 encoding.
pub trait ToBase64 {
    /// Converts the value of `self` to a base64 value following the specified
    /// format configuration, returning the owned string.
    fn to_base64(&self, config: Config) -> String;
}

// Writes the four characters of three bytes.
fn push_group(out: &mut String, first: u8, second: u8, third: u8, set: CharacterSet)
    ensures
        final(out)@ == old(out)@ + group_text(first, second, third, set),
{
    // The 24 bits get separated into four 6-bit numbers.
    push_char(out, sextet(first / 4, set));
    push_char(out, sextet((first % 4) * 16 + second / 16, set));
    push_char(out, sextet((second % 16) * 4 + third / 64, set));
    push_char(out, sextet(third % 64, set));
    proof {
        assert(out@ =~= old(out)@ + group_text(first, second, third, set));
    }
}

/// The text of one byte that is left over.
pub open spec fn tail_one(b0: u8, config: Config) -> Seq<char> {
    seq![
        sextet_char(b0 as int / 4, config.char_set),
        sextet_char((b0 as int % 4) * 16, config.char_set),
    ] + (if config.pad {
        seq!['=', '=']
    } else {
        Seq::<char>::empty()
    })
}

/// The text of two bytes that are left over.
pub open spec fn tail_two(b0: u8, b1: u8, config: Config) -> Seq<char> {
    seq![
        sextet_char(b0 as int / 4, config.char_set),
        sextet_char((b0 as int % 4) * 16 + b1 as int / 16, config.char_set),
        sextet_char((b1 as int % 16) * 4, config.char_set),
    ] + (if config.pad {
        seq!['=']
    } else {
        Seq::<char>::empty()
    })
}

// Writes the characters of one byte that is left over.
fn push_tail_one(out: &mut String, first: u8, config: &Config)
    ensures
        final(out)@ == old(out)@ + tail_one(first, *config),
{
    push_char(out, sextet(first / 4, config.char_set));
    push_char(out, sextet((first % 4) * 16, config.char_set));
    if config.pad {
        push_char(out, '=');
        push_char(out, '=');
    }
    proof {
        assert(out@ =~= old(out)@ + tail_one(first, *config));
    }
}

// Writes the characters of two bytes that are left over.
fn push_tail_two(out: &mut String, first: u8, second: u8, config: &Config)
    ensures
        final(out)@ == old(out)@ + tail_two(first, second, *config),
{
    push_char(out, sextet(first / 4, config.char_set));
    push_char(out, sextet((first % 4) * 16 + second / 16, config.char_set));
    push_char(out, sextet((second % 16) * 4, config.char_set));
    if config.pad {
        push_char(out, '=');
    }
    proof {
        assert(out@ =~= old(out)@ + tail_two(first, second, *config));
    }
}

// Writes the characters of the one or two bytes that are left over.
fn push_tail(out: &mut String, bytes: &[u8], config: &Config, column: u128)
    requires
        column == column_after(*config, bytes@.len() as int / 3),
    ensures
        final(out)@ == old(out)@ + tail_text(bytes@, *config),
{
    let len = bytes.len();
    let k = len / 3;
    let mod_len = len - 3 * k;
    if mod_len != 0 {
        if is_line_full(config, column) {
            push_newline(out, config.newline);
        }
    }
    if mod_len == 1 {
        push_tail_one(out, bytes[3 * k], config);
    } else if mod_len == 2 {
        push_tail_two(out, bytes[3 * k], bytes[3 * k + 1], config);
    }
    proof {
        assert(out@ =~= old(out)@ + tail_text(bytes@, *config));
    }
}

impl ToBase64 for [u8] {
    /// Turn a vector of `u8` bytes into a base64 string.
    fn to_base64(&self, config: Config) -> (r: String)
        ensures
            r@ == base64_text(self@, config),
    {
        let mut v = String::new();
        let groups = self.len() / 3;
        let mut k: usize = 0;
        let mut cur_length: u128 = 0;
        while k < groups
            invariant
                k <= groups,
                groups == self@.len() / 3,
                cur_length == column_after(config, k as int),
                cur_length <= 4 * k,
                v@ == groups_text(self@, config, k as int),
            decreases groups - k,
        {
            let i = 3 * k;
            if is_line_full(&config, cur_length) {
                push_newline(&mut v, config.newline);
                cur_length = 0;
            }
            push_group(&mut v, self[i], self[i + 1], self[i + 2], config.char_set);
            proof {
                assert(v@ =~= groups_text(self@, config, k + 1));
            }
            cur_length += 4;
            k += 1;
        }
        push_tail(&mut v, self, &config, cur_length);
        v
    }
}

/// Errors that can occur when decoding a base64 encoded string
#[derive(Clone, Copy, PartialEq, Eq, Debug, Structural)]
pub enum FromBase64Error {
    /// The input contained a character not part of the base64 format
    InvalidBase64Byte(u8, usize),
    /// The input had an invalid length
    InvalidBase64Length,
}

/// The number below 64 that a byte of base64 text stands for, in either
/// character set.
pub open spec fn sextet_value(byte: u8) -> Option<u8> {
    if 0x41 <= byte <= 0x5a {
        Some((byte - 0x41) as u8)
    } else if 0x61 <= byte <= 0x7a {
        Some((byte - 0x47) as u8)
    } else if 0x30 <= byte <= 0x39 {
        Some((byte + 0x04) as u8)
    } else if byte == 0x2b || byte == 0x2d {
        Some(0x3e)
    } else if byte == 0x2f || byte == 0x5f {
        Some(0x3f)
    } else {
        None
    }
}

/// Whether a byte ends a line.
pub open spec fn is_line_break(byte: u8) -> bool {
    byte == 0x0d || byte == 0x0a
}

/// The three bytes that four numbers below 64 stand for: their 24 bits,
/// eight at a time.
pub open spec fn group_bytes(s: Seq<u8>) -> Seq<u8>
    recommends
        s.len() == 4,
{
    seq![
        (s[0] as int * 4 + s[1] as int / 16) as u8,
        ((s[1] as int % 16) * 16 + s[2] as int / 4) as u8,
        ((s[2] as int % 4) * 64 + s[3] as int) as u8,
    ]
}

/// What the text comes to at its end: the bytes read so far and those
/// that the numbers left over stand for, one byte for two numbers and two
/// for three; one number left over is an error.
pub open spec fn finish(pending: Seq<u8>, out: Seq<u8>) -> Result<Seq<u8>, FromBase64Error> {
    if pending.len() == 0 {
        Ok(out)
    } else if pending.len() == 2 {
        Ok(out + seq![(pending[0] as int * 4 + pending[1] as int / 16) as u8])
    } else if pending.len() == 3 {
        Ok(
            out + seq![
                (pending[0] as int * 4 + pending[1] as int / 16) as u8,
                ((pending[1] as int % 16) * 16 + pending[2] as int / 4) as u8,
            ],
        )
    } else {
        Err(FromBase64Error::InvalidBase64Length)
    }
}

/// What the text is read as from the place `i` on, after the first `=`:
/// only `=` and line breaks may follow.
pub open spec fn padding_from(input: Seq<u8>, i: int, pending: Seq<u8>, out: Seq<u8>) -> Result<
    Seq<u8>,
    FromBase64Error,
>
    decreases input.len() - i,
{
    if i < 0 || i >= input.len() {
        finish(pending, out)
    } else if input[i] == 0x3d || is_line_break(input[i]) {
        padding_from(input, i + 1, pending, out)
    } else {
        Err(FromBase64Error::InvalidBase64Byte(input[i], i as usize))
    }
}

/// What the text is read as from the place `i` on, where the bytes `out`
/// have been read and the numbers `pending`, fewer than four, are waiting
/// for the rest of their group. Line breaks are passed over; `=` ends the
/// data; any byte that is none of these and stands for no number is an
/// error.
pub open spec fn decode_from(input: Seq<u8>, i: int, pending: Seq<u8>, out: Seq<u8>) -> Result<
    Seq<u8>,
    FromBase64Error,
>
    decreases input.len() - i,
{
    if i < 0 || i >= input.len() {
        finish(pending, out)
    } else {
        match sextet_value(input[i]) {
            Some(v) => if pending.len() == 3 {
                decode_from(input, i + 1, Seq::empty(), out + group_bytes(pending.push(v)))
            } else {
                decode_from(input, i + 1, pending.push(v), out)
            },
            None => if is_line_break(input[i]) {
                decode_from(input, i + 1, pending, out)
            } else if input[i] == 0x3d {
                padding_from(input, i + 1, pending, out)
            } else {
                Err(FromBase64Error::InvalidBase64Byte(input[i], i as usize))
            },
        }
    }
}

/// The bytes that a base64 text stands for, or what is wrong with it.
pub open spec fn base64_bytes(input: Seq<u8>) -> Result<Seq<u8>, FromBase64Error> {
    decode_from(input, 0, Seq::empty(), Seq::empty())
}

/// The view of what decoding returns.
pub open spec fn bytes_result(r: Result<Vec<u8>, FromBase64Error>) -> Result<
    Seq<u8>,
    FromBase64Error,
> {
    match r {
        Ok(v) => Ok(v@),
        Err(e) => Err(e),
    }
}

// The number below 64 that a byte of base64 text stands for.
fn sextet_of(byte: u8) -> (r: Option<u8>)
    ensures
        r == sextet_value(byte),
        r is Some ==> r->0 < 64,
{
    if 0x41 <= byte && byte <= 0x5a {
        Some(byte - 0x41)
    } else if 0x61 <= byte && byte <= 0x7a {
        Some(byte - 0x47)
    } else if 0x30 <= byte && byte <= 0x39 {
        Some(byte + 0x04)
    } else if byte == 0x2b || byte == 0x2d {
        Some(0x3e)
    } else if byte == 0x2f || byte == 0x5f {
        Some(0x3f)
    } else {
        None
    }
}

/// A trait for converting from base64 encoded values.
pub trait FromBase64 {
    /// Converts the value of `self`, interpreted as base64 encoded data, into
    /// an owned vector of bytes, returning the vector.
    fn from_base64(&self) -> Result<Vec<u8>, FromBase64Error>;
}

impl FromBase64 for str {
    /// Convert any base64 encoded string to the byte values it encodes.
    fn from_base64(&self) -> (r: Result<Vec<u8>, FromBase64Error>)
        ensures
            bytes_result(r) == base64_bytes(vstd::utf8::encode_utf8(self@)),
    {
        self.as_bytes().from_base64()
    }
}

impl FromBase64 for [u8] {
    fn from_base64(&self) -> (r: Result<Vec<u8>, FromBase64Error>)
        ensures
            bytes_result(r) == base64_bytes(self@),
    {
        let mut r: Vec<u8> = Vec::new();
        // The numbers of the group that is being read, and how many.
        let mut a: u8 = 0;
        let mut b: u8 = 0;
        let mut c: u8 = 0;
        let mut modulus: u8 = 0;
        let ghost mut pending: Seq<u8> = Seq::empty();
        let mut idx: usize = 0;
        while idx < self.len()
            invariant
                idx <= self@.len(),
                modulus < 4,
                pending.len() == modulus,
                forall|j: int| 0 <= j < pending.len() ==> pending[j] < 64,
                modulus >= 1 ==> pending[0] == a,
                modulus >= 2 ==> pending[1] == b,
                modulus >= 3 ==> pending[2] == c,
                decode_from(self@, idx as int, pending, r@) == base64_bytes(self@),
            decreases self@.len() - idx,
        {
            let byte = self[idx];
            match sextet_of(byte) {
                Some(val) => {
                    if modulus == 0 {
                        a = val;
                        modulus = 1;
                        proof {
                            pending = pending.push(val);
                        }
                    } else if modulus == 1 {
                        b = val;
                        modulus = 2;
                        proof {
                            pending = pending.push(val);
                        }
                    } else if modulus == 2 {
                        c = val;
                        modulus = 3;
                        proof {
                            pending = pending.push(val);
                        }
                    } else {
                        let ghost out = r@;
                        r.push(a * 4 + b / 16);
                        r.push((b % 16) * 16 + c / 4);
                        r.push((c % 4) * 64 + val);
                        proof {
                            assert(r@ =~= out + group_bytes(pending.push(val)));
                            pending = Seq::empty();
                        }
                        modulus = 0;
                    }
                },
                None => {
                    if byte == 0x0d || byte == 0x0a {
                    } else if byte == 0x3d {
                        idx += 1;
                        while idx < self.len()
                            invariant
                                idx <= self@.len(),
                                padding_from(self@, idx as int, pending, r@) == base64_bytes(
                                    self@,
                                ),
                                modulus < 4,
                                pending.len() == modulus,
                                forall|j: int| 0 <= j < pending.len() ==> pending[j] < 64,
                                modulus >= 1 ==> pending[0] == a,
                                modulus >= 2 ==> pending[1] == b,
                                modulus >= 3 ==> pending[2] == c,
                            decreases self@.len() - idx,
                        {
                            let byte = self[idx];
                            if !(byte == 0x3d || byte == 0x0d || byte == 0x0a) {
                                return Err(FromBase64Error::InvalidBase64Byte(byte, idx));
                            }
                            idx += 1;
                        }
                        return finish_bytes(r, a, b, c, modulus, Ghost(pending));
                    } else {
                        return Err(FromBase64Error::InvalidBase64Byte(byte, idx));
                    }
                },
            }
            idx += 1;
        }
        finish_bytes(r, a, b, c, modulus, Ghost(pending))
    }
}

// Ends the decoding: adds the bytes of the numbers that are left over.
fn finish_bytes(r: Vec<u8>, a: u8, b: u8, c: u8, modulus: u8, Ghost(pending): Ghost<Seq<u8>>) -> (out:
    Result<Vec<u8>, FromBase64Error>)
    requires
        modulus < 4,
        pending.len() == modulus,
        forall|j: int| 0 <= j < pending.len() ==> pending[j] < 64,
        modulus >= 1 ==> pending[0] == a,
        modulus >= 2 ==> pending[1] == b,
        modulus >= 3 ==> pending[2] == c,
    ensures
        bytes_result(out) == finish(pending, r@),
{
    let mut r = r;
    let ghost before = r@;
    if modulus == 0 {
        Ok(r)
    } else if modulus == 2 {
        r.push(a * 4 + b / 16);
        proof {
            assert(r@ =~= before + seq![(pending[0] as int * 4 + pending[1] as int / 16) as u8]);
        }
        Ok(r)
    } else if modulus == 3 {
        r.push(a * 4 + b / 16);
        r.push((b % 16) * 16 + c / 4);
        proof {
            assert(r@ =~= before + seq![
                (pending[0] as int * 4 + pending[1] as int / 16) as u8,
                ((pending[1] as int % 16) * 16 + pending[2] as int / 4) as u8,
            ]);
        }
        Ok(r)
    } else {
        Err(FromBase64Error::InvalidBase64Length)
    }
}

/// The bytes of a text whose characters are all below 128.
pub open spec fn text_bytes(text: Seq<char>) -> Seq<u8> {
    Seq::new(text.len(), |i: int| text[i] as u8)
}

/// The bytes of the text `part` stand in `input` from the place `i` on.
pub open spec fn stands(input: Seq<u8>, i: int, part: Seq<char>) -> bool {
    &&& 0 <= i
    &&& i + part.len() <= input.len()
    &&& forall|j: int| 0 <= j < part.len() ==> input[i + j] == #[trigger] part[j] as u8
}

/// The character of a number below 64 stands for that number, and is
/// neither a line break nor the sign that fills a group up.
pub proof fn lemma_sextet_round_trip(v: int, set: CharacterSet)
    requires
        0 <= v < 64,
    ensures
        sextet_value(sextet_char(v, set) as u8) == Some(v as u8),
        (sextet_char(v, set) as u32) < 128,
{
}

/// Where two texts stand one after the other, each stands at its place.
pub proof fn lemma_stands_split(input: Seq<u8>, i: int, a: Seq<char>, b: Seq<char>)
    requires
        stands(input, i, a + b),
    ensures
        stands(input, i, a),
        stands(input, i + a.len(), b),
{
    assert forall|j: int| 0 <= j < a.len() implies input[i + j] == #[trigger] a[j] as u8 by {
        assert((a + b)[j] == a[j]);
    }
    assert forall|j: int| 0 <= j < b.len() implies input[i + a.len() + j] == #[trigger] b[
        j
    ] as u8 by {
        assert((a + b)[a.len() + j] == b[j]);
    }
}

/// What ends a line is passed over.
pub proof fn lemma_decode_newline(
    input: Seq<u8>,
    i: int,
    newline: Newline,
    pending: Seq<u8>,
    out: Seq<u8>,
)
    requires
        stands(input, i, newline_text(newline)),
    ensures
        decode_from(input, i, pending, out) == decode_from(
            input,
            i + newline_text(newline).len(),
            pending,
            out,
        ),
{
    let text = newline_text(newline);
    assert(input[i + 0] == text[0] as u8);
    match newline {
        Newline::LF => {
            assert(input[i] == 0x0a);
            assert(decode_from(input, i, pending, out) == decode_from(
                input,
                i + 1,
                pending,
                out,
            ));
        },
        Newline::CRLF => {
            assert(input[i + 1] == text[1] as u8);
            assert(input[i] == 0x0d);
            assert(input[i + 1] == 0x0a);
            assert(decode_from(input, i, pending, out) == decode_from(
                input,
                i + 1,
                pending,
                out,
            ));
            assert(decode_from(input, i + 1, pending, out) == decode_from(
                input,
                i + 2,
                pending,
                out,
            ));
        },
    }
}

/// The four characters of three bytes are read back as the three bytes.
pub proof fn lemma_decode_group(
    input: Seq<u8>,
    i: int,
    b0: u8,
    b1: u8,
    b2: u8,
    set: CharacterSet,
    out: Seq<u8>,
)
    requires
        stands(input, i, group_text(b0, b1, b2, set)),
    ensures
        decode_from(input, i, Seq::empty(), out) == decode_from(
            input,
            i + 4,
            Seq::empty(),
            out + seq![b0, b1, b2],
        ),
{
    let text = group_text(b0, b1, b2, set);
    let s0 = b0 as int / 4;
    let s1 = (b0 as int % 4) * 16 + b1 as int / 16;
    let s2 = (b1 as int % 16) * 4 + b2 as int / 64;
    let s3 = b2 as int % 64;
    lemma_sextet_round_trip(s0, set);
    lemma_sextet_round_trip(s1, set);
    lemma_sextet_round_trip(s2, set);
    lemma_sextet_round_trip(s3, set);
    assert(input[i + 0] == text[0] as u8);
    assert(input[i + 1] == text[1] as u8);
    assert(input[i + 2] == text[2] as u8);
    assert(input[i + 3] == text[3] as u8);
    let e = Seq::<u8>::empty();
    let p1 = e.push(s0 as u8);
    let p2 = p1.push(s1 as u8);
    let p3 = p2.push(s2 as u8);
    let p4 = p3.push(s3 as u8);
    assert(decode_from(input, i, e, out) == decode_from(input, i + 1, p1, out));
    assert(decode_from(input, i + 1, p1, out) == decode_from(input, i + 2, p2, out));
    assert(decode_from(input, i + 2, p2, out) == decode_from(input, i + 3, p3, out));
    assert(group_bytes(p4) =~= seq![b0, b1, b2]);
    assert(decode_from(input, i + 3, p3, out) == decode_from(
        input,
        i + 4,
        e,
        out + group_bytes(p4),
    ));
}

/// Where the text of all groups stands, the text of the first `k` stands,
/// and after it the text of the next group, after a line break where the
/// line is full.
pub proof fn lemma_groups_stand(input: Seq<u8>, bytes: Seq<u8>, config: Config, k: int)
    requires
        stands(input, 0, groups_text(bytes, config, bytes.len() as int / 3)),
        0 <= k <= bytes.len() as int / 3,
    ensures
        stands(input, 0, groups_text(bytes, config, k)),
        k < bytes.len() as int / 3 ==> groups_text(bytes, config, k + 1) == groups_text(
            bytes,
            config,
            k,
        ) + ((if line_full(config, column_after(config, k)) {
            newline_text(config.newline)
        } else {
            Seq::<char>::empty()
        }) + group_text(bytes[3 * k], bytes[3 * k + 1], bytes[3 * k + 2], config.char_set)),
    decreases bytes.len() as int / 3 - k,
{
    if k < bytes.len() as int / 3 {
        lemma_groups_stand(input, bytes, config, k + 1);
        let step = (if line_full(config, column_after(config, k)) {
            newline_text(config.newline)
        } else {
            Seq::<char>::empty()
        }) + group_text(bytes[3 * k], bytes[3 * k + 1], bytes[3 * k + 2], config.char_set);
        assert(groups_text(bytes, config, k + 1) =~= groups_text(bytes, config, k) + step);
        lemma_stands_split(input, 0, groups_text(bytes, config, k), step);
    }
}

/// The text of the first `k` groups is read back as the bytes of the
/// groups.
pub proof fn lemma_decode_groups(input: Seq<u8>, bytes: Seq<u8>, config: Config, k: int)
    requires
        stands(input, 0, groups_text(bytes, config, bytes.len() as int / 3)),
        0 <= k <= bytes.len() as int / 3,
    ensures
        base64_bytes(input) == decode_from(
            input,
            groups_text(bytes, config, k).len() as int,
            Seq::empty(),
            bytes.take(3 * k),
        ),
    decreases k,
{
    if k == 0 {
        assert(bytes.take(0) =~= Seq::<u8>::empty());
        assert(groups_text(bytes, config, 0) =~= Seq::<char>::empty());
    } else {
        lemma_decode_groups(input, bytes, config, k - 1);
        lemma_groups_stand(input, bytes, config, k - 1);
        lemma_groups_stand(input, bytes, config, k);
        let before = groups_text(bytes, config, k - 1);
        let newline = (if line_full(config, column_after(config, k - 1)) {
            newline_text(config.newline)
        } else {
            Seq::<char>::empty()
        });
        let group = group_text(
            bytes[3 * k - 3],
            bytes[3 * k - 2],
            bytes[3 * k - 1],
            config.char_set,
        );
        assert(groups_text(bytes, config, k) == before + (newline + group));
        lemma_stands_split(input, 0, before, newline + group);
        lemma_stands_split(input, before.len() as int, newline, group);
        let out = bytes.take(3 * k - 3);
        if line_full(config, column_after(config, k - 1)) {
            lemma_decode_newline(
                input,
                before.len() as int,
                config.newline,
                Seq::empty(),
                out,
            );
        }
        lemma_decode_group(
            input,
            (before.len() + newline.len()) as int,
            bytes[3 * k - 3],
            bytes[3 * k - 2],
            bytes[3 * k - 1],
            config.char_set,
            out,
        );
        assert(out + seq![bytes[3 * k - 3], bytes[3 * k - 2], bytes[3 * k - 1]] =~= bytes.take(
            3 * k,
        ));
    }
}

/// After the data only the signs that fill a group up follow.
pub proof fn lemma_decode_padding(
    input: Seq<u8>,
    i: int,
    n: int,
    pending: Seq<u8>,
    out: Seq<u8>,
)
    requires
        0 <= i,
        0 <= n,
        i + n == input.len(),
        forall|j: int| i <= j < input.len() ==> input[j] == 0x3d,
    ensures
        padding_from(input, i, pending, out) == finish(pending, out),
    decreases n,
{
    if n > 0 {
        lemma_decode_padding(input, i + 1, n - 1, pending, out);
    }
}

/// One byte that is left over is read back from its two characters.
pub proof fn lemma_decode_tail_one(input: Seq<u8>, at: int, b0: u8, config: Config, out: Seq<u8>)
    requires
        stands(input, at, tail_one(b0, config)),
        at + tail_one(b0, config).len() == input.len(),
    ensures
        decode_from(input, at, Seq::empty(), out) == Ok::<Seq<u8>, FromBase64Error>(
            out + seq![b0],
        ),
{
    let set = config.char_set;
    let text = tail_one(b0, config);
    let s0 = b0 as int / 4;
    let s1 = (b0 as int % 4) * 16;
    lemma_sextet_round_trip(s0, set);
    lemma_sextet_round_trip(s1, set);
    assert(input[at + 0] == text[0] as u8);
    assert(input[at + 1] == text[1] as u8);
    let e = Seq::<u8>::empty();
    let p1 = e.push(s0 as u8);
    let p2 = p1.push(s1 as u8);
    assert(decode_from(input, at, e, out) == decode_from(input, at + 1, p1, out));
    assert(decode_from(input, at + 1, p1, out) == decode_from(input, at + 2, p2, out));
    assert(out + seq![(p2[0] as int * 4 + p2[1] as int / 16) as u8] =~= out + seq![b0]);
    if config.pad {
        assert(input[at + 2] == text[2] as u8);
        assert(input[at + 3] == text[3] as u8);
        assert forall|j: int| at + 3 <= j < input.len() implies input[j] == 0x3d by {}
        lemma_decode_padding(input, at + 3, 1, p2, out);
        assert(decode_from(input, at + 2, p2, out) == padding_from(input, at + 3, p2, out));
    }
}

/// Two bytes that are left over are read back from their three
/// characters.
pub proof fn lemma_decode_tail_two(
    input: Seq<u8>,
    at: int,
    b0: u8,
    b1: u8,
    config: Config,
    out: Seq<u8>,
)
    requires
        stands(input, at, tail_two(b0, b1, config)),
        at + tail_two(b0, b1, config).len() == input.len(),
    ensures
        decode_from(input, at, Seq::empty(), out) == Ok::<Seq<u8>, FromBase64Error>(
            out + seq![b0, b1],
        ),
{
    let set = config.char_set;
    let text = tail_two(b0, b1, config);
    let s0 = b0 as int / 4;
    let s1 = (b0 as int % 4) * 16 + b1 as int / 16;
    let s2 = (b1 as int % 16) * 4;
    lemma_sextet_round_trip(s0, set);
    lemma_sextet_round_trip(s1, set);
    lemma_sextet_round_trip(s2, set);
    assert(input[at + 0] == text[0] as u8);
    assert(input[at + 1] == text[1] as u8);
    assert(input[at + 2] == text[2] as u8);
    let e = Seq::<u8>::empty();
    let p1 = e.push(s0 as u8);
    let p2 = p1.push(s1 as u8);
    let p3 = p2.push(s2 as u8);
    assert(decode_from(input, at, e, out) == decode_from(input, at + 1, p1, out));
    assert(decode_from(input, at + 1, p1, out) == decode_from(input, at + 2, p2, out));
    assert(decode_from(input, at + 2, p2, out) == decode_from(input, at + 3, p3, out));
    assert(out + seq![
        (p3[0] as int * 4 + p3[1] as int / 16) as u8,
        ((p3[1] as int % 16) * 16 + p3[2] as int / 4) as u8,
    ] =~= out + seq![b0, b1]);
    if config.pad {
        assert(input[at + 3] == text[3] as u8);
        lemma_decode_padding(input, at + 4, 0, p3, out);
        assert(decode_from(input, at + 3, p3, out) == padding_from(input, at + 4, p3, out));
    }
}

/// **What is encoded is decoded again.** The base64 text of a sequence of
/// bytes, in any configuration, stands for those bytes.
pub proof fn lemma_base64_round_trip(bytes: Seq<u8>, config: Config)
    ensures
        base64_bytes(text_bytes(base64_text(bytes, config))) == Ok::<Seq<u8>, FromBase64Error>(
            bytes,
        ),
{
    let k = bytes.len() as int / 3;
    let groups = groups_text(bytes, config, k);
    let tail = tail_text(bytes, config);
    let input = text_bytes(groups + tail);
    assert(stands(input, 0, groups + tail));
    lemma_stands_split(input, 0, groups, tail);
    lemma_decode_groups(input, bytes, config, k);
    let out = bytes.take(3 * k);
    let start = groups.len() as int;
    let left = bytes.len() - 3 * k;
    let newline = (if line_full(config, column_after(config, k)) {
        newline_text(config.newline)
    } else {
        Seq::<char>::empty()
    });
    if left == 0 {
        assert(tail =~= Seq::<char>::empty());
        assert(out =~= bytes);
    } else {
        let data = if left == 1 {
            tail_one(bytes[3 * k], config)
        } else {
            tail_two(bytes[3 * k], bytes[3 * k + 1], config)
        };
        assert(tail == newline + data);
        lemma_stands_split(input, start, newline, data);
        if line_full(config, column_after(config, k)) {
            lemma_decode_newline(input, start, config.newline, Seq::empty(), out);
        }
        if left == 1 {
            lemma_decode_tail_one(input, start + newline.len(), bytes[3 * k], config, out);
            assert(out + seq![bytes[3 * k]] =~= bytes);
        } else {
            lemma_decode_tail_two(
                input,
                start + newline.len(),
                bytes[3 * k],
                bytes[3 * k + 1],
                config,
                out,
            );
            assert(out + seq![bytes[3 * k], bytes[3 * k + 1]] =~= bytes);
        }
    }
}

/// The text of the first `k` groups holds no character above 127.
pub proof fn lemma_groups_ascii(bytes: Seq<u8>, config: Config, k: int)
    ensures
        vstd::utf8::is_ascii_chars(groups_text(bytes, config, k)),
    decreases k,
{
    if k > 0 && 3 * k <= bytes.len() {
        lemma_groups_ascii(bytes, config, k - 1);
        let b0 = bytes[3 * k - 3];
        let b1 = bytes[3 * k - 2];
        let b2 = bytes[3 * k - 1];
        lemma_sextet_round_trip(b0 as int / 4, config.char_set);
        lemma_sextet_round_trip((b0 as int % 4) * 16 + b1 as int / 16, config.char_set);
        lemma_sextet_round_trip((b1 as int % 16) * 4 + b2 as int / 64, config.char_set);
        lemma_sextet_round_trip(b2 as int % 64, config.char_set);
        let before = groups_text(bytes, config, k - 1);
        let newline = (if line_full(config, column_after(config, k - 1)) {
            newline_text(config.newline)
        } else {
            Seq::<char>::empty()
        });
        let group = group_text(b0, b1, b2, config.char_set);
        let text = groups_text(bytes, config, k);
        assert(text =~= before + newline + group);
        assert forall|i: int| 0 <= i < text.len() implies '\0' <= #[trigger] text[i]
            <= '\u{7f}' by {
            if i < before.len() {
                assert(text[i] == before[i]);
            } else if i < before.len() + newline.len() {
                assert(text[i] == newline[i - before.len()]);
            } else {
                assert(text[i] == group[i - before.len() - newline.len()]);
            }
        }
    }
}

/// The base64 text of a sequence of bytes holds no character above 127,
/// so its bytes as a string are its characters one by one.
pub proof fn lemma_base64_text_ascii(bytes: Seq<u8>, config: Config)
    ensures
        vstd::utf8::is_ascii_chars(base64_text(bytes, config)),
        vstd::utf8::encode_utf8(base64_text(bytes, config)) == text_bytes(
            base64_text(bytes, config),
        ),
{
    let k = bytes.len() as int / 3;
    lemma_groups_ascii(bytes, config, k);
    let groups = groups_text(bytes, config, k);
    let tail = tail_text(bytes, config);
    let text = base64_text(bytes, config);
    if bytes.len() - 3 * k == 1 {
        let b0 = bytes[3 * k];
        lemma_sextet_round_trip(b0 as int / 4, config.char_set);
        lemma_sextet_round_trip((b0 as int % 4) * 16, config.char_set);
    } else if bytes.len() - 3 * k == 2 {
        let b0 = bytes[3 * k];
        let b1 = bytes[3 * k + 1];
        lemma_sextet_round_trip(b0 as int / 4, config.char_set);
        lemma_sextet_round_trip((b0 as int % 4) * 16 + b1 as int / 16, config.char_set);
        lemma_sextet_round_trip((b1 as int % 16) * 4, config.char_set);
    }
    assert(vstd::utf8::is_ascii_chars(tail));
    assert forall|i: int| 0 <= i < text.len() implies '\0' <= #[trigger] text[i] <= '\u{7f}' by {
        if i < groups.len() {
            assert(text[i] == groups[i]);
        } else {
            assert(text[i] == tail[i - groups.len()]);
        }
    }
    vstd::utf8::is_ascii_chars_encode_utf8(text);
    assert(vstd::utf8::encode_utf8(text) =~= text_bytes(text));
}

/// **A string of base64 text is decoded to what was encoded.** The bytes
/// that the base64 text of a sequence of bytes stands for, taken as a
/// string, are those bytes.
pub proof fn lemma_base64_string_round_trip(bytes: Seq<u8>, config: Config)
    ensures
        base64_bytes(vstd::utf8::encode_utf8(base64_text(bytes, config))) == Ok::<
            Seq<u8>,
            FromBase64Error,
        >(bytes),
{
    lemma_base64_text_ascii(bytes, config);
    lemma_base64_round_trip(bytes, config);
}

} // verus!
