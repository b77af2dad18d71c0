//! How the parser reads a text that it knows: it moves on character by
//! character, over white space, words, numbers and strings.

use vstd::prelude::*;
use crate::json::encoder::{escape_body, escape_one, escaped, hex_digit};
use crate::json::error::ParserError;
use crate::json::event::JsonEventView;
use crate::json::float::{digits_text, DecimalView, FloatView};
use crate::json::parser::{hex_value, ParserState, ParserView};
use crate::json::stack::StackElementView;
use crate::json::text::{decimal, digit_char, is_digit, signed_decimal};

verus! {

/// The parser `n` characters further on.
pub open spec fn bumps(p: ParserView, n: nat) -> ParserView
    decreases n,
{
    if n == 0 {
        p
    } else {
        bumps(p.bump(), (n - 1) as nat)
    }
}

/// The text `text` stands in the input from the current character on.
pub open spec fn at(p: ParserView, text: Seq<char>) -> bool {
    &&& 0 <= p.pos
    &&& p.pos + text.len() <= p.input.len()
    &&& p.input.subrange(p.pos, p.pos + text.len()) == text
}

/// Whether no number goes on with the current character: the input has
/// ended, or the character is no digit, no point and no `e`.
pub open spec fn ends_number(p: ParserView) -> bool {
    match p.ch() {
        None => true,
        Some(c) => !is_digit(c) && c != '.' && c != 'e' && c != 'E',
    }
}

/// Moving on changes the place and nothing else of what the parser knows
/// of the document.
pub proof fn lemma_bumps(p: ParserView, n: nat)
    ensures
        bumps(p, n).input == p.input,
        bumps(p, n).stack == p.stack,
        bumps(p, n).state == p.state,
        bumps(p, n).pos == p.pos + n,
    decreases n,
{
    if n > 0 {
        lemma_bumps(p.bump(), (n - 1) as nat);
    }
}

/// Moving on by `a` and then by `b` is moving on by `a + b`.
pub proof fn lemma_bumps_add(p: ParserView, a: nat, b: nat)
    ensures
        bumps(bumps(p, a), b) == bumps(p, a + b),
    decreases a,
{
    if a > 0 {
        lemma_bumps_add(p.bump(), (a - 1) as nat, b);
    }
}

/// Moving on by one more.
pub proof fn lemma_bumps_next(p: ParserView, n: nat)
    ensures
        bumps(p, n).bump() == bumps(p, n + 1),
        bumps(p, 1) == p.bump(),
{
    lemma_bumps_add(p, n, 1);
    assert(bumps(bumps(p, n), 1) == bumps(p, n).bump()) by {
        assert(bumps(bumps(p, n).bump(), 0) == bumps(p, n).bump());
    }
    assert(bumps(p.bump(), 0) == p.bump());
}

/// Moving on does not depend on the state, nor the state on moving on.
pub proof fn lemma_bumps_with_state(p: ParserView, state: ParserState, n: nat)
    ensures
        bumps(p.with_state(state), n) == bumps(p, n).with_state(state),
    decreases n,
{
    if n > 0 {
        lemma_bumps_with_state(p.bump(), state, (n - 1) as nat);
        assert(p.with_state(state).bump() == p.bump().with_state(state));
    }
}

/// Moving on does not depend on the stack, nor the stack on moving on.
pub proof fn lemma_bumps_with_stack(p: ParserView, stack: Seq<StackElementView>, n: nat)
    ensures
        bumps(p.with_stack(stack), n) == bumps(p, n).with_stack(stack),
    decreases n,
{
    if n > 0 {
        lemma_bumps_with_stack(p.bump(), stack, (n - 1) as nat);
        assert(p.with_stack(stack).bump() == p.bump().with_stack(stack));
    }
}

/// Where a text stands, each of its characters stands at its place.
pub proof fn lemma_at_char(p: ParserView, text: Seq<char>, i: int)
    requires
        at(p, text),
        0 <= i < text.len(),
    ensures
        bumps(p, i as nat).ch() == Some(text[i]),
        bumps(p, i as nat).pos == p.pos + i,
        bumps(p, i as nat).pos < p.input.len(),
{
    lemma_bumps(p, i as nat);
    assert(p.input.subrange(p.pos, p.pos + text.len())[i] == p.input[p.pos + i]);
}

/// Where two texts stand one after the other, the first stands there, and
/// the second after it.
pub proof fn lemma_at_split(p: ParserView, a: Seq<char>, b: Seq<char>)
    requires
        at(p, a + b),
    ensures
        at(p, a),
        at(bumps(p, a.len()), b),
{
    lemma_bumps(p, a.len());
    let whole = p.input.subrange(p.pos, p.pos + (a + b).len());
    assert(p.input.subrange(p.pos, p.pos + a.len()) =~= a) by {
        assert forall|i: int| 0 <= i < a.len() implies p.input[p.pos + i] == a[i] by {
            assert(whole[i] == (a + b)[i]);
        }
    }
    assert(p.input.subrange(p.pos + a.len(), p.pos + a.len() + b.len()) =~= b) by {
        assert forall|i: int| 0 <= i < b.len() implies p.input[p.pos + a.len() + i] == b[i] by {
            assert(whole[a.len() + i] == (a + b)[a.len() + i]);
        }
    }
}

/// Whether a text is white space throughout.
pub open spec fn is_blank(text: Seq<char>) -> bool {
    forall|i: int|
        0 <= i < text.len() ==> (#[trigger] text[i] == ' ' || text[i] == '\n' || text[i] == '\t'
            || text[i] == '\r')
}

/// White space that stands in the input is skipped as a whole, where what
/// comes after it is none.
pub proof fn lemma_skip_blank(p: ParserView, text: Seq<char>)
    requires
        at(p, text),
        is_blank(text),
        !bumps(p, text.len()).at_whitespace(),
    ensures
        p.skip_whitespace() == bumps(p, text.len()),
    decreases text.len(),
{
    if text.len() == 0 {
    } else {
        lemma_at_char(p, text, 0);
        assert(text[0] == ' ' || text[0] == '\n' || text[0] == '\t' || text[0] == '\r');
        assert(p.at_whitespace());
        let rest = text.drop_first();
        assert(text =~= seq![text[0]] + rest);
        lemma_at_split(p, seq![text[0]], rest);
        lemma_bumps_next(p, 0);
        assert(is_blank(rest)) by {
            assert forall|i: int| 0 <= i < rest.len() implies (#[trigger] rest[i] == ' '
                || rest[i] == '\n' || rest[i] == '\t' || rest[i] == '\r') by {
                assert(rest[i] == text[i + 1]);
            }
        }
        lemma_bumps_add(p, 1, rest.len());
        lemma_skip_blank(p.bump(), rest);
    }
}

/// A word is read as a whole where it stands: the parser at its first
/// letter moves past its last.
pub proof fn lemma_parse_ident(p: ParserView, ident: Seq<char>, value: JsonEventView)
    requires
        p.pos >= 0,
        at(p.bump(), ident),
    ensures
        p.parse_ident(ident, value) == (bumps(p, ident.len() + 1), value),
    decreases ident.len(),
{
    lemma_bumps_next(p, 0);
    if ident.len() == 0 {
        assert(bumps(p.bump(), 0) == p.bump());
    } else {
        lemma_at_char(p.bump(), ident, 0);
        assert(bumps(p.bump(), 0) == p.bump());
        let rest = ident.drop_first();
        assert(ident =~= seq![ident[0]] + rest);
        lemma_at_split(p.bump(), seq![ident[0]], rest);
        lemma_bumps_next(p.bump(), 0);
        lemma_parse_ident(p.bump(), rest, value);
        assert(bumps(p, ident.len() + 1) == bumps(p.bump(), ident.len()));
    }
}

/// A decimal numeral is made of digits, at least one, and starts with a
/// zero only where it is the numeral of zero.
pub proof fn lemma_decimal_shape(n: nat)
    ensures
        decimal(n).len() >= 1,
        forall|i: int| 0 <= i < decimal(n).len() ==> is_digit(#[trigger] decimal(n)[i]),
        n >= 1 ==> decimal(n)[0] != '0',
        n == 0 ==> decimal(n) == seq!['0'],
    decreases n,
{
    if n >= 10 {
        lemma_decimal_shape(n / 10);
        let head = decimal(n / 10);
        assert forall|i: int| 0 <= i < decimal(n).len() implies is_digit(
            #[trigger] decimal(n)[i],
        ) by {
            if i < head.len() {
                assert(decimal(n)[i] == head[i]);
            }
        }
        assert(decimal(n)[0] == head[0]);
    }
}

/// The digits of a numeral are read into the number that it denotes.
pub proof fn lemma_parse_digits(p: ParserView, n: nat)
    requires
        at(p, decimal(n)),
        n <= u64::MAX,
    ensures
        p.parse_digits(0) == bumps(p, decimal(n).len()).parse_digits(n as u64),
    decreases n,
{
    lemma_decimal_shape(n);
    if n < 10 {
        lemma_at_char(p, decimal(n), 0);
        assert(bumps(p, 0) == p);
        lemma_bumps_next(p, 0);
    } else {
        let head = decimal(n / 10);
        let last = digit_char(n % 10);
        assert(decimal(n) =~= head + seq![last]);
        lemma_at_split(p, head, seq![last]);
        lemma_parse_digits(p, n / 10);
        let q = bumps(p, head.len());
        lemma_at_char(q, seq![last], 0);
        assert(bumps(q, 0) == q);
        lemma_bumps_next(p, head.len());
        assert((n / 10) * 10 + n % 10 == n);
    }
}

/// The integer part of a number is read from its numeral, where no digit
/// follows it.
pub proof fn lemma_parse_u64(p: ParserView, n: nat)
    requires
        at(p, decimal(n)),
        n <= u64::MAX,
        !(bumps(p, decimal(n).len()).ch() is Some && is_digit(
            bumps(p, decimal(n).len()).ch()->0,
        )),
    ensures
        p.parse_u64() == (bumps(p, decimal(n).len()), Ok::<u64, ParserError>(n as u64)),
{
    lemma_decimal_shape(n);
    lemma_at_char(p, decimal(n), 0);
    assert(bumps(p, 0) == p);
    if n == 0 {
        lemma_bumps_next(p, 0);
    } else {
        lemma_parse_digits(p, n);
    }
}

/// The digits of a fraction are read one by one, where no digit follows
/// them.
pub proof fn lemma_parse_fraction_digits(p: ParserView, digits: Seq<u8>, read: Seq<u8>)
    requires
        at(p, digits_text(digits)),
        forall|i: int| 0 <= i < digits.len() ==> digits[i] <= 9,
        !(bumps(p, digits.len()).ch() is Some && is_digit(bumps(p, digits.len()).ch()->0)),
    ensures
        p.parse_fraction_digits(read) == (bumps(p, digits.len()), read + digits),
    decreases digits.len(),
{
    let text = digits_text(digits);
    if digits.len() == 0 {
        assert(bumps(p, 0) == p);
        assert(read + digits =~= read);
    } else {
        lemma_at_char(p, text, 0);
        assert(bumps(p, 0) == p);
        let rest = digits.drop_first();
        assert(text =~= seq![text[0]] + digits_text(rest));
        lemma_at_split(p, seq![text[0]], digits_text(rest));
        lemma_bumps_next(p, 0);
        lemma_bumps_add(p, 1, rest.len());
        assert(text[0] == digit_char(digits[0] as nat));
        lemma_parse_fraction_digits(p.bump(), rest, read.push(digits[0]));
        assert(read.push(digits[0]) + rest =~= read + digits);
    }
}

/// The digits of an exponent are read into the number that they denote.
pub proof fn lemma_parse_exponent_digits_into(p: ParserView, n: nat)
    requires
        at(p, decimal(n)),
        n <= u64::MAX,
    ensures
        p.parse_exponent_digits(0) == bumps(p, decimal(n).len()).parse_exponent_digits(n as u64),
    decreases n,
{
    lemma_decimal_shape(n);
    if n < 10 {
        lemma_at_char(p, decimal(n), 0);
        assert(bumps(p, 0) == p);
        lemma_bumps_next(p, 0);
    } else {
        let head = decimal(n / 10);
        let last = digit_char(n % 10);
        assert(decimal(n) =~= head + seq![last]);
        lemma_at_split(p, head, seq![last]);
        lemma_parse_exponent_digits_into(p, n / 10);
        let q = bumps(p, head.len());
        lemma_at_char(q, seq![last], 0);
        assert(bumps(q, 0) == q);
        lemma_bumps_next(p, head.len());
        assert((n / 10) * 10 + n % 10 == n);
    }
}

/// An unsigned number is read from its numeral, where no number goes on
/// after it.
pub proof fn lemma_parse_unsigned(p: ParserView, n: u64)
    requires
        at(p, decimal(n as nat)),
        ends_number(bumps(p, decimal(n as nat).len())),
    ensures
        p.parse_number() == (bumps(p, decimal(n as nat).len()), JsonEventView::U64Value(n)),
{
    lemma_decimal_shape(n as nat);
    lemma_at_char(p, decimal(n as nat), 0);
    assert(bumps(p, 0) == p);
    lemma_parse_u64(p, n as nat);
}

/// A negative number is read from its numeral, where no number goes on
/// after it.
pub proof fn lemma_parse_negative(p: ParserView, n: i64)
    requires
        n < 0,
        at(p, signed_decimal(n as int)),
        ends_number(bumps(p, signed_decimal(n as int).len())),
    ensures
        p.parse_number() == (
            bumps(p, signed_decimal(n as int).len()),
            JsonEventView::I64Value(n),
        ),
{
    let digits = decimal((-n) as nat);
    lemma_decimal_shape((-n) as nat);
    assert(signed_decimal(n as int) =~= seq!['-'] + digits);
    lemma_at_split(p, seq!['-'], digits);
    lemma_at_char(p, seq!['-'], 0);
    assert(bumps(p, 0) == p);
    lemma_bumps_next(p, 0);
    lemma_bumps_add(p, 1, digits.len());
    lemma_parse_u64(p.bump(), (-n) as nat);
}

/// A decimal is read from its numeral, where no number goes on after it.
pub proof fn lemma_parse_decimal(p: ParserView, d: DecimalView)
    requires
        d.wf(),
        at(p, d.text()),
        ends_number(bumps(p, d.text().len())),
    ensures
        p.parse_number() == (
            bumps(p, d.text().len()),
            JsonEventView::F64Value(FloatView::Finite(d)),
        ),
{
    let sign = if d.negative {
        seq!['-']
    } else {
        Seq::<char>::empty()
    };
    let integer = decimal(d.integer as nat);
    let fraction = digits_text(d.fraction);
    let exponent = d.exponent_text();
    lemma_decimal_shape(d.integer as nat);
    assert(d.text() =~= sign + (integer + (seq!['.'] + (fraction + exponent))));
    lemma_at_split(p, sign, integer + (seq!['.'] + (fraction + exponent)));
    let p1 = bumps(p, sign.len());
    lemma_at_split(p1, integer, seq!['.'] + (fraction + exponent));
    let p2 = bumps(p1, integer.len());
    lemma_at_split(p2, seq!['.'], fraction + exponent);
    let p3 = bumps(p2, 1);
    lemma_at_split(p3, fraction, exponent);
    let p4 = bumps(p3, fraction.len());
    lemma_bumps_add(p, sign.len(), integer.len());
    lemma_bumps_add(p, sign.len() + integer.len(), 1);
    lemma_bumps_add(p, sign.len() + integer.len() + 1, fraction.len());
    lemma_bumps_add(p, sign.len() + integer.len() + 1 + fraction.len(), exponent.len());
    // The sign.
    lemma_at_char(p1, integer, 0);
    assert(bumps(p1, 0) == p1);
    assert(bumps(p, 0) == p);
    if d.negative {
        lemma_at_char(p, sign, 0);
        lemma_bumps_next(p, 0);
    } else {
        assert(p1 == p);
        assert(!p.ch_is('-'));
    }
    // The integer part, up to the point.
    lemma_at_char(p2, seq!['.'], 0);
    assert(bumps(p2, 0) == p2);
    lemma_parse_u64(p1, d.integer as nat);
    // The fraction.
    lemma_bumps_next(p2, 0);
    assert(fraction.len() == d.fraction.len());
    assert(fraction[0] == digit_char(d.fraction[0] as nat));
    lemma_at_char(p3, fraction, 0);
    assert(bumps(p3, 0) == p3);
    if d.has_exponent() {
        let marker = if d.exp_negative {
            seq!['e', '-']
        } else {
            seq!['e']
        };
        let magnitude = decimal(d.exponent as nat);
        lemma_decimal_shape(d.exponent as nat);
        assert(exponent =~= marker + magnitude);
        lemma_at_split(p4, marker, magnitude);
        lemma_at_char(p4, marker, 0);
        assert(bumps(p4, 0) == p4);
        lemma_parse_fraction_digits(p3, d.fraction, Seq::empty());
        assert(Seq::<u8>::empty() + d.fraction =~= d.fraction);
        let p5 = bumps(p4, marker.len());
        lemma_bumps_next(p4, 0);
        if d.exp_negative {
            lemma_at_char(p4, marker, 1);
            lemma_bumps_next(p4, 1);
        }
        lemma_at_char(p5, magnitude, 0);
        assert(bumps(p5, 0) == p5);
        lemma_bumps_add(p4, marker.len(), magnitude.len());
        lemma_parse_exponent_digits_into(p5, d.exponent as nat);
        assert(p4.bump().ch_is('-') == d.exp_negative);
        assert(!p4.bump().ch_is('+'));
    } else {
        assert(exponent =~= Seq::<char>::empty());
        lemma_parse_fraction_digits(p3, d.fraction, Seq::empty());
        assert(Seq::<u8>::empty() + d.fraction =~= d.fraction);
    }
}

/// A hexadecimal digit stands for its number.
pub proof fn lemma_hex_digit(n: nat)
    requires
        n < 16,
    ensures
        hex_value(hex_digit(n)) == Some(n as u16),
{
}

/// What one character of a string is written as is read back as that
/// character: the parser, which stands before it, moves to its last
/// character.
pub proof fn lemma_read_escape_one(q: ParserView, c: char, res: Seq<char>)
    requires
        q.pos >= 0,
        at(q.bump(), escape_one(c)),
    ensures
        q.parse_str_from(res) == bumps(q, escape_one(c).len()).parse_str_from(res.push(c)),
{
    let text = escape_one(c);
    let next = q.bump();
    lemma_bumps_next(q, 0);
    lemma_at_char(next, text, 0);
    assert(bumps(next, 0) == next);
    if text.len() == 1 {
        assert(text[0] == c);
    } else {
        let esc = next.bump();
        lemma_at_char(next, text, 1);
        lemma_bumps_next(next, 0);
        lemma_bumps_add(q, 1, 1);
        reveal(ParserView::parse_escape);
        if text.len() == 2 {
        } else {
            reveal(ParserView::parse_unicode_escape);
            reveal(ParserView::decode_hex_escape);
            let code = c as u32;
            lemma_at_char(next, text, 2);
            lemma_at_char(next, text, 3);
            lemma_at_char(next, text, 4);
            lemma_at_char(next, text, 5);
            lemma_bumps_next(next, 1);
            lemma_bumps_next(next, 2);
            lemma_bumps_next(next, 3);
            lemma_bumps_next(next, 4);
            lemma_bumps_add(q, 1, 5);
            lemma_hex_digit((code / 16) as nat);
            lemma_hex_digit((code % 16) as nat);
            let p1 = esc.bump();
            let p2 = p1.bump();
            let p3 = p2.bump();
            let p4 = p3.bump();
            assert(p1 == bumps(next, 2));
            assert(p2 == bumps(next, 3));
            assert(p3 == bumps(next, 4));
            assert(p4 == bumps(next, 5));
            assert(esc.hex_step(0) == (p1, Ok::<u16, ParserError>(0u16)));
            assert(p1.hex_step(0) == (p2, Ok::<u16, ParserError>(0u16)));
            assert(p2.hex_step(0) == (p3, Ok::<u16, ParserError>((code / 16) as u16)));
            assert(p3.hex_step((code / 16) as u16) == (p4, Ok::<u16, ParserError>(code as u16)));
            assert(esc.decode_hex_escape() == (p4, Ok::<u16, ParserError>(code as u16)));
            assert((code as u16) as char == c);
            assert(esc.parse_unicode_escape() == (p4, Ok::<char, ParserError>(c)));
            assert(esc.parse_escape() == (p4, Ok::<char, ParserError>(c)));
        }
    }
}

/// Where the body of a string stands, the body of each of its beginnings
/// stands too.
pub proof fn lemma_body_at(p: ParserView, s: Seq<char>, i: int)
    requires
        at(p, escape_body(s)),
        0 <= i <= s.len(),
    ensures
        at(p, escape_body(s.take(i))),
    decreases s.len() - i,
{
    if i == s.len() {
        assert(s.take(i) =~= s);
    } else {
        lemma_body_at(p, s, i + 1);
        assert(s.take(i + 1).drop_last() =~= s.take(i));
        lemma_at_split(p, escape_body(s.take(i)), escape_one(s[i]));
    }
}

/// A string is read back from where its first `i` characters have been
/// read.
pub proof fn lemma_parse_str_from(p: ParserView, s: Seq<char>, i: int)
    requires
        at(p, escaped(s)),
        0 <= i <= s.len(),
    ensures
        bumps(p, escape_body(s.take(i)).len()).parse_str_from(s.take(i)) == (
            bumps(p, escaped(s).len()),
            Ok::<Seq<char>, ParserError>(s),
        ),
    decreases s.len() - i,
{
    let body = escape_body(s);
    assert(escaped(s) =~= seq!['"'] + (body + seq!['"']));
    lemma_at_split(p, seq!['"'], body + seq!['"']);
    let p1 = bumps(p, 1);
    lemma_at_split(p1, body, seq!['"']);
    let read = escape_body(s.take(i));
    lemma_body_at(p1, s, i);
    let q = bumps(p, read.len());
    lemma_bumps(p, read.len());
    lemma_bumps_next(p, read.len());
    lemma_bumps_add(p, 1, read.len());
    assert(q.bump() == bumps(p1, read.len()));
    if i == s.len() {
        assert(s.take(i) =~= s);
        lemma_at_char(bumps(p1, body.len()), seq!['"'], 0);
        assert(bumps(bumps(p1, body.len()), 0) == bumps(p1, body.len()));
        lemma_bumps_next(p, body.len() + 1);
        lemma_bumps_add(p, 1, body.len());
    } else {
        lemma_body_at(p1, s, i + 1);
        assert(s.take(i + 1).drop_last() =~= s.take(i));
        assert(s.take(i + 1).last() == s[i]);
        lemma_at_split(p1, read, escape_one(s[i]));
        lemma_read_escape_one(q, s[i], s.take(i));
        lemma_bumps_add(p, read.len(), escape_one(s[i]).len());
        assert(s.take(i).push(s[i]) =~= s.take(i + 1));
        lemma_parse_str_from(p, s, i + 1);
    }
}

/// **A string is read back as it was written.** Where the text of a string
/// stands, the parser reads the string and moves past the text.
pub proof fn lemma_parse_str(p: ParserView, s: Seq<char>)
    requires
        at(p, escaped(s)),
    ensures
        p.parse_str() == (bumps(p, escaped(s).len()), Ok::<Seq<char>, ParserError>(s)),
{
    lemma_parse_str_from(p, s, 0);
    assert(s.take(0) =~= Seq::<char>::empty());
    assert(escape_body(Seq::<char>::empty()) =~= Seq::<char>::empty());
    assert(bumps(p, 0) == p);
}

} // verus!
