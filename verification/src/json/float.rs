//! Numbers with a fraction or an exponent, held as decimal numerals.

use vstd::prelude::*;
use vstd::std_specs::cmp::PartialEqSpecImpl;
use crate::json::text::{decimal, digit_char, push_decimal};

verus! {

/// The mathematical value of a [`Decimal`].
pub struct DecimalView {
    pub negative: bool,
    pub integer: u64,
    pub fraction: Seq<u8>,
    pub exp_negative: bool,
    pub exponent: u64,
}

/// The characters of a sequence of digits.
pub open spec fn digits_text(digits: Seq<u8>) -> Seq<char> {
    Seq::new(digits.len(), |i: int| digit_char(digits[i] as nat))
}

impl DecimalView {
    /// There is at least one digit after the point, and each is below ten.
    pub open spec fn wf(self) -> bool {
        &&& self.fraction.len() >= 1
        &&& forall|i: int| 0 <= i < self.fraction.len() ==> self.fraction[i] <= 9
    }

    /// Whether the numeral is written with an exponent.
    pub open spec fn has_exponent(self) -> bool {
        self.exp_negative || self.exponent != 0
    }

    /// The exponent as it is written: nothing where there is none.
    pub open spec fn exponent_text(self) -> Seq<char> {
        if self.has_exponent() {
            seq!['e'] + (if self.exp_negative {
                seq!['-']
            } else {
                Seq::<char>::empty()
            }) + decimal(self.exponent as nat)
        } else {
            Seq::<char>::empty()
        }
    }

    /// The sign, the integer part and the point.
    pub open spec fn head_text(self) -> Seq<char> {
        (if self.negative {
            seq!['-']
        } else {
            Seq::<char>::empty()
        }) + decimal(self.integer as nat) + seq!['.']
    }

    /// The numeral: sign, integer part, point, fraction, exponent.
    pub open spec fn text(self) -> Seq<char> {
        self.head_text() + digits_text(self.fraction) + self.exponent_text()
    }
}

/// A finite number in decimal notation: `integer.fraction`, times ten to the
/// power of the exponent, with a sign. It is kept digit for digit, so a
/// number is never rounded; two decimals are equal when they are written
/// alike.
#[derive(Eq, Debug)]
pub struct Decimal {
    negative: bool,
    integer: u64,
    fraction: Vec<u8>,
    exp_negative: bool,
    exponent: u64,
}

impl View for Decimal {
    type V = DecimalView;

    closed spec fn view(&self) -> DecimalView {
        DecimalView {
            negative: self.negative,
            integer: self.integer,
            fraction: self.fraction@,
            exp_negative: self.exp_negative,
            exponent: self.exponent,
        }
    }
}

impl Clone for Decimal {
    fn clone(&self) -> (r: Decimal)
        ensures
            r@ == self@,
    {
        proof {
            use_type_invariant(self);
        }
        Decimal {
            negative: self.negative,
            integer: self.integer,
            fraction: self.fraction.clone(),
            exp_negative: self.exp_negative,
            exponent: self.exponent,
        }
    }
}

impl Decimal {
    #[verifier::type_invariant]
    closed spec fn inv(self) -> bool {
        self@.wf()
    }

    /// The decimal with these parts. There is none where `fraction` is empty
    /// or holds a number above nine.
    pub fn new(
        negative: bool,
        integer: u64,
        fraction: Vec<u8>,
        exp_negative: bool,
        exponent: u64,
    ) -> (r: Option<Decimal>)
        ensures
            r is Some <==> (DecimalView {
                negative,
                integer,
                fraction: fraction@,
                exp_negative,
                exponent,
            }).wf(),
            r is Some ==> r->0@ == (DecimalView {
                negative,
                integer,
                fraction: fraction@,
                exp_negative,
                exponent,
            }),
    {
        if fraction.len() == 0 {
            return None;
        }
        let mut i: usize = 0;
        while i < fraction.len()
            invariant
                i <= fraction.len(),
                forall|j: int| 0 <= j < i ==> fraction@[j] <= 9,
            decreases fraction.len() - i,
        {
            if fraction[i] > 9 {
                return None;
            }
            i += 1;
        }
        Some(Decimal { negative, integer, fraction, exp_negative, exponent })
    }

    /// The decimal with these parts, which are known to be well formed.
    pub(crate) fn from_parts(
        negative: bool,
        integer: u64,
        fraction: Vec<u8>,
        exp_negative: bool,
        exponent: u64,
    ) -> (r: Decimal)
        requires
            fraction@.len() >= 1,
            forall|i: int| 0 <= i < fraction@.len() ==> fraction@[i] <= 9,
        ensures
            r@ == (DecimalView {
                negative,
                integer,
                fraction: fraction@,
                exp_negative,
                exponent,
            }),
    {
        Decimal { negative, integer, fraction, exp_negative, exponent }
    }

    /// The whole number `n`, written `n.0`.
    pub fn from_u64(n: u64) -> (r: Decimal)
        ensures
            r@ == (DecimalView {
                negative: false,
                integer: n,
                fraction: seq![0u8],
                exp_negative: false,
                exponent: 0,
            }),
    {
        let mut fraction: Vec<u8> = Vec::new();
        fraction.push(0u8);
        assert(fraction@ =~= seq![0u8]);
        Decimal { negative: false, integer: n, fraction, exp_negative: false, exponent: 0 }
    }

    /// The whole number `n`, written `n.0` with its sign.
    pub fn from_i64(n: i64) -> (r: Decimal)
        ensures
            r@ == (DecimalView {
                negative: n < 0,
                integer: (if n < 0 {
                    -n
                } else {
                    n as int
                }) as u64,
                fraction: seq![0u8],
                exp_negative: false,
                exponent: 0,
            }),
    {
        let mut fraction: Vec<u8> = Vec::new();
        fraction.push(0u8);
        assert(fraction@ =~= seq![0u8]);
        let magnitude: u64 = if n == i64::MIN {
            9223372036854775808u64
        } else if n < 0 {
            (-n) as u64
        } else {
            n as u64
        };
        Decimal { negative: n < 0, integer: magnitude, fraction, exp_negative: false, exponent: 0 }
    }

    /// Whether the number has a minus sign.
    pub fn is_negative(&self) -> (r: bool)
        ensures
            r == self@.negative,
    {
        self.negative
    }

    /// The part before the point.
    pub fn integer(&self) -> (r: u64)
        ensures
            r == self@.integer,
    {
        self.integer
    }

    /// The digits after the point: at least one, each below ten.
    pub fn fraction(&self) -> (r: &Vec<u8>)
        ensures
            r@ == self@.fraction,
            self@.wf(),
    {
        proof {
            use_type_invariant(self);
        }
        &self.fraction
    }

    /// Whether the exponent has a minus sign.
    pub fn is_exponent_negative(&self) -> (r: bool)
        ensures
            r == self@.exp_negative,
    {
        self.exp_negative
    }

    /// The power of ten that the number is multiplied with, or divided by
    /// where the exponent is negative.
    pub fn exponent(&self) -> (r: u64)
        ensures
            r == self@.exponent,
    {
        self.exponent
    }

    /// Whether both are written alike.
    pub fn same(&self, other: &Decimal) -> (r: bool)
        ensures
            r == (self@ == other@),
    {
        if self.negative != other.negative || self.integer != other.integer || self.exp_negative
            != other.exp_negative || self.exponent != other.exponent || self.fraction.len()
            != other.fraction.len() {
            return false;
        }
        let mut i: usize = 0;
        while i < self.fraction.len()
            invariant
                i <= self.fraction.len(),
                self.fraction.len() == other.fraction.len(),
                forall|j: int| 0 <= j < i ==> self.fraction@[j] == other.fraction@[j],
            decreases self.fraction.len() - i,
        {
            if self.fraction[i] != other.fraction[i] {
                return false;
            }
            i += 1;
        }
        assert(self.fraction@ =~= other.fraction@);
        true
    }

    // Appends the sign, the integer part and the point.
    fn write_head(&self, out: &mut Vec<char>)
        ensures
            final(out)@ == old(out)@ + self@.head_text(),
    {
        if self.negative {
            out.push('-');
        }
        push_decimal(out, self.integer);
        out.push('.');
        proof {
            assert(out@ =~= old(out)@ + self@.head_text());
        }
    }

    // Appends the digits of the fraction.
    fn write_fraction(&self, out: &mut Vec<char>)
        ensures
            final(out)@ == old(out)@ + digits_text(self@.fraction),
    {
        proof {
            use_type_invariant(self);
        }
        let mut i: usize = 0;
        while i < self.fraction.len()
            invariant
                i <= self.fraction.len(),
                self@.wf(),
                out@ =~= old(out)@ + digits_text(self.fraction@).take(i as int),
            decreases self.fraction.len() - i,
        {
            let d = self.fraction[i];
            out.push((d + 48) as char);
            i += 1;
        }
        proof {
            assert(digits_text(self.fraction@).take(i as int) =~= digits_text(self.fraction@));
        }
    }

    // Appends the exponent, where there is one.
    fn write_exponent(&self, out: &mut Vec<char>)
        ensures
            final(out)@ == old(out)@ + self@.exponent_text(),
    {
        if self.exp_negative || self.exponent != 0 {
            out.push('e');
            if self.exp_negative {
                out.push('-');
            }
            push_decimal(out, self.exponent);
        }
        proof {
            assert(out@ =~= old(out)@ + self@.exponent_text());
        }
    }

    /// Appends the numeral to `out`.
    pub fn write(&self, out: &mut Vec<char>)
        ensures
            final(out)@ == old(out)@ + self@.text(),
    {
        self.write_head(out);
        self.write_fraction(out);
        self.write_exponent(out);
        proof {
            assert(out@ =~= old(out)@ + self@.text());
        }
    }
}

/// The mathematical value of a [`Float`].
pub enum FloatView {
    Nan,
    Infinity,
    NegInfinity,
    Finite(DecimalView),
}

impl FloatView {
    /// Whether the number is finite and its decimal well formed, or not
    /// finite.
    pub open spec fn wf(self) -> bool {
        match self {
            FloatView::Finite(d) => d.wf(),
            _ => true,
        }
    }

    /// How the number is written: a finite one by its numeral, the others,
    /// for which JSON has no notation, as `null`.
    pub open spec fn text(self) -> Seq<char> {
        match self {
            FloatView::Finite(d) => d.text(),
            _ => seq!['n', 'u', 'l', 'l'],
        }
    }
}

/// A floating-point number: a finite decimal, an infinity, or no number at
/// all.
#[derive(Clone, Eq, Debug)]
pub enum Float {
    /// Not a number.
    Nan,
    /// Above every finite number.
    Infinity,
    /// Below every finite number.
    NegInfinity,
    /// A finite number.
    Finite(Decimal),
}

impl View for Float {
    type V = FloatView;

    open spec fn view(&self) -> FloatView {
        match self {
            Float::Nan => FloatView::Nan,
            Float::Infinity => FloatView::Infinity,
            Float::NegInfinity => FloatView::NegInfinity,
            Float::Finite(d) => FloatView::Finite(d@),
        }
    }
}

impl Float {
    /// The whole number `n`, written `n.0`.
    pub open spec fn from_u64_view(n: u64) -> FloatView {
        FloatView::Finite(
            DecimalView {
                negative: false,
                integer: n,
                fraction: seq![0u8],
                exp_negative: false,
                exponent: 0,
            },
        )
    }

    /// The whole number `n`, written `n.0` with its sign.
    pub open spec fn from_i64_view(n: i64) -> FloatView {
        FloatView::Finite(
            DecimalView {
                negative: n < 0,
                integer: (if n < 0 {
                    -n
                } else {
                    n as int
                }) as u64,
                fraction: seq![0u8],
                exp_negative: false,
                exponent: 0,
            },
        )
    }

    /// The whole number `n` as a floating-point number.
    pub fn from_u64(n: u64) -> (r: Float)
        ensures
            r@ == Float::from_u64_view(n),
            r@ == FloatView::Finite(
                DecimalView {
                    negative: false,
                    integer: n,
                    fraction: seq![0u8],
                    exp_negative: false,
                    exponent: 0,
                },
            ),
    {
        Float::Finite(Decimal::from_u64(n))
    }

    /// The whole number `n` as a floating-point number.
    pub fn from_i64(n: i64) -> (r: Float)
        ensures
            r@ == Float::from_i64_view(n),
            r@ == FloatView::Finite(
                DecimalView {
                    negative: n < 0,
                    integer: (if n < 0 {
                        -n
                    } else {
                        n as int
                    }) as u64,
                    fraction: seq![0u8],
                    exp_negative: false,
                    exponent: 0,
                },
            ),
    {
        Float::Finite(Decimal::from_i64(n))
    }

    /// Whether this is no number.
    pub fn is_nan(&self) -> (r: bool)
        ensures
            r == (self@ is Nan),
    {
        match self {
            Float::Nan => true,
            _ => false,
        }
    }

    /// Whether this is a finite number.
    pub fn is_finite(&self) -> (r: bool)
        ensures
            r == (self@ is Finite),
    {
        match self {
            Float::Finite(_) => true,
            _ => false,
        }
    }

    /// Whether both are the same kind of number, written alike.
    pub fn same(&self, other: &Float) -> (r: bool)
        ensures
            r == (self@ == other@),
    {
        match (self, other) {
            (Float::Nan, Float::Nan) => true,
            (Float::Infinity, Float::Infinity) => true,
            (Float::NegInfinity, Float::NegInfinity) => true,
            (Float::Finite(a), Float::Finite(b)) => a.same(b),
            (_, _) => false,
        }
    }

    /// Appends the number to `out` as JSON writes it.
    pub fn write(&self, out: &mut Vec<char>)
        ensures
            final(out)@ == old(out)@ + self@.text(),
    {
        match self {
            Float::Finite(d) => d.write(out),
            _ => {
                out.push('n');
                out.push('u');
                out.push('l');
                out.push('l');
                assert(out@ =~= old(out)@ + seq!['n', 'u', 'l', 'l']);
            },
        }
    }
}

impl PartialEq for Decimal {
    /// Two decimals are equal when they are written alike.
    fn eq(&self, other: &Decimal) -> (r: bool) {
        self.same(other)
    }
}

impl PartialEqSpecImpl for Decimal {
    open spec fn obeys_eq_spec() -> bool {
        true
    }

    open spec fn eq_spec(&self, other: &Decimal) -> bool {
        self@ == other@
    }
}

impl PartialEq for Float {
    /// Two numbers are equal when they are the same kind of number,
    /// written alike.
    fn eq(&self, other: &Float) -> (r: bool) {
        self.same(other)
    }
}

impl PartialEqSpecImpl for Float {
    open spec fn obeys_eq_spec() -> bool {
        true
    }

    open spec fn eq_spec(&self, other: &Float) -> bool {
        self@ == other@
    }
}

} // verus!
