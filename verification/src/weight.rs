//! The load of a set, as an exact decimal number.

use vstd::prelude::*;
use vstd::arithmetic::div_mod::{lemma_fundamental_div_mod, lemma_mod_mod, lemma_small_mod};
use crate::digits::{
    all_digits, append_fixed, append_nat, digits_end, digits_value, fixed_text, is_digit,
    lemma_digit_char, lemma_digits_end, lemma_digits_end_is, lemma_digits_value_concat,
    lemma_digits_value_grows, lemma_fixed_text, lemma_nat_text, lemma_pow10_adds,
    lemma_pow10_increases, lemma_trim_zeros, nat_text, pow10, read_digits, scan_digits, ten_to,
    trim_zeros,
};
use crate::rational::Rational;

verus! {

/// The most decimal places a weight can have.
pub const MAX_SCALE: u8 = 18;

/// A decimal number: `mantissa` divided by ten to the power `scale`.
#[derive(Clone, Copy, Debug, PartialEq, Eq, Structural)]
pub struct Weight {
    pub mantissa: i64,
    pub scale: u8,
}

impl View for Weight {
    type V = Rational;

    /// The number that the weight stands for.
    open spec fn view(&self) -> Rational {
        Rational { num: self.mantissa as int, den: pow10(self.scale as nat) as int }
    }
}

/// The parts of a decimal literal: its sign, the digits before the point
/// and the digits after it (none where it has no point).
pub struct Literal {
    pub negative: bool,
    pub whole: Seq<char>,
    pub fraction: Seq<char>,
}

impl Literal {
    /// There is at least one digit before the point, and there are only
    /// digits before and after it.
    pub open spec fn wf(self) -> bool {
        &&& self.whole.len() > 0
        &&& all_digits(self.whole)
        &&& all_digits(self.fraction)
    }

    /// The literal as it is written.
    pub open spec fn text(self) -> Seq<char> {
        (if self.negative { seq!['-'] } else { Seq::empty() })
            + self.whole
            + (if self.fraction.len() > 0 { seq!['.'] + self.fraction } else { Seq::empty() })
    }

    /// The number that the literal writes.
    pub open spec fn value(self) -> Rational {
        let size = digits_value(self.whole + self.fraction) as int;
        Rational {
            num: if self.negative { -size } else { size },
            den: pow10(self.fraction.len()) as int,
        }
    }

    /// The number that the literal writes, as a mantissa and a scale with
    /// the zeros at the end of the fraction left out.
    pub open spec fn shortest(self) -> (int, nat) {
        let fraction = trim_zeros(self.fraction);
        let size = digits_value(self.whole + fraction) as int;
        (if self.negative { -size } else { size }, fraction.len())
    }
}

/// Takes a decimal literal apart: an optional minus sign, one or more
/// digits, and optionally a point followed by one or more digits. Any other
/// text is no literal.
pub open spec fn read_literal(s: Seq<char>) -> Option<Literal> {
    let negative = s.len() > 0 && s[0] == '-';
    let start = if negative { 1int } else { 0int };
    let dot = digits_end(s, start);
    let end = digits_end(s, dot + 1);
    if dot == start {
        None
    } else if dot == s.len() {
        Some(Literal { negative, whole: s.subrange(start, dot), fraction: Seq::empty() })
    } else if s[dot] == '.' && end == s.len() && end > dot + 1 {
        Some(Literal { negative, whole: s.subrange(start, dot), fraction: s.subrange(dot + 1, end) })
    } else {
        None
    }
}

/// The weight that a literal writes, with the zeros at the end of its
/// fraction left out; `None` where that number has too many decimal places
/// or is too large for a `Weight`.
pub open spec fn literal_weight(l: Literal) -> Option<Weight> {
    let (mantissa, scale) = l.shortest();
    if scale <= MAX_SCALE && i64::MIN <= mantissa <= i64::MAX {
        Some(Weight { mantissa: mantissa as i64, scale: scale as u8 })
    } else {
        None
    }
}

/// A mantissa and a scale without the zeros at the end of the decimal
/// places.
pub open spec fn shortened(mantissa: int, scale: nat) -> (int, nat)
    decreases scale,
{
    if scale > 0 && mantissa % 10 == 0 {
        shortened(mantissa / 10, (scale - 1) as nat)
    } else {
        (mantissa, scale)
    }
}

/// Shortening keeps the number, and leaves no zero at the end of the
/// decimal places.
pub proof fn lemma_shortened(mantissa: int, scale: nat)
    ensures
        shortened(mantissa, scale).1 <= scale,
        shortened(mantissa, scale).1 == 0 || shortened(mantissa, scale).0 % 10 != 0,
        Rational::fraction(
            shortened(mantissa, scale).0,
            pow10(shortened(mantissa, scale).1) as int,
        ).same(Rational::fraction(mantissa, pow10(scale) as int)),
    decreases scale,
{
    if scale > 0 && mantissa % 10 == 0 {
        let rest = (scale - 1) as nat;
        lemma_shortened(mantissa / 10, rest);
        let (m, k) = shortened(mantissa, scale);
        let p = pow10(rest) as int;
        let q = pow10(k) as int;
        let tenth = mantissa / 10;
        assert(m * (10 * p) == (10 * tenth) * q) by (nonlinear_arith)
            requires
                m * p == tenth * q,
        ;
    }
}

/// The weight that a text writes, where it is a decimal literal whose
/// number a `Weight` can hold.
pub open spec fn parsed(s: Seq<char>) -> Option<Weight> {
    match read_literal(s) {
        Some(l) => literal_weight(l),
        None => None,
    }
}

/// A literal is made of the minus sign, the point and digits alone.
pub proof fn lemma_literal_is_ascii(s: Seq<char>)
    requires
        read_literal(s) is Some,
    ensures
        vstd::utf8::is_ascii_chars(s),
{
    let negative = s.len() > 0 && s[0] == '-';
    let start = if negative { 1int } else { 0int };
    lemma_digits_end(s, start);
    let dot = digits_end(s, start);
    if dot < s.len() {
        lemma_digits_end(s, dot + 1);
    }
    assert forall|i: int| 0 <= i < s.len() implies '\0' <= #[trigger] s[i] <= '\u{7f}' by {
        if i < start {
        } else if i < dot {
            assert(is_digit(s[i]));
        } else if i == dot {
        } else {
            assert(is_digit(s[i]));
        }
    }
}

/// What `read_literal` gives is a well-formed literal, and the text is how
/// that literal is written.
pub proof fn lemma_read_literal_sound(s: Seq<char>)
    requires
        read_literal(s) is Some,
    ensures
        read_literal(s)->0.wf(),
        read_literal(s)->0.text() == s,
{
    let l = read_literal(s)->0;
    let start = if l.negative { 1int } else { 0int };
    lemma_digits_end(s, start);
    let dot = digits_end(s, start);
    if dot < s.len() {
        lemma_digits_end(s, dot + 1);
    }
    assert(l.text() =~= s);
}

/// Every well-formed literal is read back from its text, and no other
/// literal is: the grammar is not ambiguous.
pub proof fn lemma_read_literal_complete(l: Literal)
    requires
        l.wf(),
    ensures
        read_literal(l.text()) == Some(l),
{
    let s = l.text();
    let start = if l.negative { 1int } else { 0int };
    let dot = start + l.whole.len();
    assert(is_digit(l.whole[0]));
    assert(s[start] == l.whole[0]);
    assert forall|i: int| start <= i < dot implies is_digit(#[trigger] s[i]) by {
        assert(s[i] == l.whole[i - start]);
    }
    lemma_digits_end_is(s, start, dot);
    assert(s.subrange(start, dot) =~= l.whole);
    if l.fraction.len() > 0 {
        assert(s[dot] == '.');
        assert forall|i: int| dot + 1 <= i < s.len() implies is_digit(#[trigger] s[i]) by {
            assert(s[i] == l.fraction[i - dot - 1]);
        }
        lemma_digits_end_is(s, dot + 1, s.len() as int);
        assert(s.subrange(dot + 1, s.len() as int) =~= l.fraction);
    } else {
        assert(l.fraction =~= Seq::empty());
    }
}

/// Leaving out the zeros at the end of the fraction does not change the
/// number, and leaves no zero at the end of a fraction.
pub proof fn lemma_literal_shortest(l: Literal)
    requires
        l.wf(),
    ensures
        l.shortest().1 <= l.fraction.len(),
        l.shortest().1 == 0 || l.shortest().0 % 10 != 0,
        Rational::fraction(l.shortest().0, pow10(l.shortest().1) as int).same(l.value()),
{
    let fraction = trim_zeros(l.fraction);
    let size = digits_value(l.whole + fraction) as int;
    let cut = (l.fraction.len() - fraction.len()) as nat;
    lemma_trim_zeros(l.whole, l.fraction);
    lemma_pow10_adds(fraction.len(), cut);
    let p = pow10(fraction.len()) as int;
    let c = pow10(cut) as int;
    assert(size * (p * c) == (size * c) * p && (-size) * (p * c) == (-(size * c)) * p)
        by (nonlinear_arith);
    if fraction.len() > 0 {
        let last = fraction.last();
        assert(last == l.fraction[fraction.len() - 1]);
        assert(is_digit(last));
        assert((l.whole + fraction).last() == last);
    }
}

/// A number has one shortest way of being written as a mantissa and a
/// scale.
pub proof fn lemma_shortest_unique(m1: int, s1: nat, m2: int, s2: nat)
    requires
        s1 == 0 || m1 % 10 != 0,
        s2 == 0 || m2 % 10 != 0,
        m1 * pow10(s2) == m2 * pow10(s1),
    ensures
        m1 == m2,
        s1 == s2,
{
    lemma_pow10_increases(0, s1);
    lemma_pow10_increases(0, s2);
    let pa = pow10(s1) as int;
    let pb = pow10(s2) as int;
    if s1 < s2 {
        let k = pow10((s2 - s1 - 1) as nat) as int;
        lemma_pow10_adds(s1, (s2 - s1) as nat);
        assert(pow10((s2 - s1) as nat) == 10 * k);
        assert(m2 == (m1 * k) * 10) by (nonlinear_arith)
            requires
                m1 * pb == m2 * pa,
                pb == pa * (10 * k),
                pa > 0,
        ;
    } else if s2 < s1 {
        let k = pow10((s1 - s2 - 1) as nat) as int;
        lemma_pow10_adds(s2, (s1 - s2) as nat);
        assert(pow10((s1 - s2) as nat) == 10 * k);
        assert(m1 == (m2 * k) * 10) by (nonlinear_arith)
            requires
                m1 * pb == m2 * pa,
                pa == pb * (10 * k),
                pb > 0,
        ;
    } else {
        assert(m1 == m2) by (nonlinear_arith)
            requires
                m1 * pa == m2 * pa,
                pa > 0,
        ;
    }
}

/// Two well-formed weights that stand for the same number are equal.
pub proof fn lemma_weight_unique(a: Weight, b: Weight)
    requires
        a.wf(),
        b.wf(),
        a@.same(b@),
    ensures
        a == b,
{
    lemma_shortest_unique(a.mantissa as int, a.scale as nat, b.mantissa as int, b.scale as nat);
}

/// The weight read from a literal is well formed and stands for the number
/// that the literal writes.
pub proof fn lemma_literal_weight_value(l: Literal)
    requires
        l.wf(),
        literal_weight(l) is Some,
    ensures
        literal_weight(l)->0.wf(),
        literal_weight(l)->0@.same(l.value()),
{
    lemma_literal_shortest(l);
}

/// Where no weight is read from a literal, no well-formed weight stands for
/// the number that the literal writes.
pub proof fn lemma_literal_weight_none(l: Literal, w: Weight)
    requires
        l.wf(),
        literal_weight(l) is None,
        w.wf(),
    ensures
        !w@.same(l.value()),
{
    if w@.same(l.value()) {
        lemma_literal_shortest(l);
        let (m, k) = l.shortest();
        let f = pow10(l.fraction.len()) as int;
        let p = pow10(k) as int;
        let q = pow10(w.scale as nat) as int;
        let v = l.value().num;
        lemma_pow10_increases(0, l.fraction.len());
        assert(w.mantissa * p == m * q) by (nonlinear_arith)
            requires
                w.mantissa * f == v * q,
                m * f == v * p,
                f > 0,
        ;
        lemma_shortest_unique(w.mantissa as int, w.scale as nat, m, k);
    }
}

impl Weight {
    /// The scale is in range and the number is written with as few decimal
    /// places as it needs: its last decimal place, if it has one, is not zero.
    pub open spec fn wf(self) -> bool {
        &&& self.scale <= MAX_SCALE
        &&& self.scale == 0 || self.mantissa % 10 != 0
    }

    /// Whether the weight is well formed.
    pub fn is_wf(&self) -> (b: bool)
        ensures
            b == self.wf(),
    {
        self.scale <= MAX_SCALE && (self.scale == 0 || self.mantissa % 10 != 0)
    }

    /// The mantissa without its sign.
    pub open spec fn size(self) -> nat {
        if self.mantissa < 0 {
            (-self.mantissa) as nat
        } else {
            self.mantissa as nat
        }
    }

    /// The weight as it is written: a minus sign where it is negative, the
    /// whole part, and a point and the decimal places where it has any.
    pub open spec fn text(self) -> Seq<char> {
        let unit = pow10(self.scale as nat);
        (if self.mantissa < 0 { seq!['-'] } else { Seq::empty() })
            + nat_text(self.size() / unit)
            + (if self.scale > 0 {
                seq!['.'] + fixed_text(self.size() % unit, self.scale as nat)
            } else {
                Seq::empty()
            })
    }

    /// The weight `mantissa / 10^scale`, written with as few decimal places
    /// as it needs; `None` where it needs more than a weight can have.
    pub fn new(mantissa: i64, scale: u8) -> (r: Option<Weight>)
        ensures
            r is Some <==> shortened(mantissa as int, scale as nat).1 <= MAX_SCALE,
            r matches Some(w) ==> w.wf() && (w.mantissa as int, w.scale as nat) == shortened(
                mantissa as int,
                scale as nat,
            ),
            r matches Some(w) ==> w@.same(
                Rational::fraction(mantissa as int, pow10(scale as nat) as int),
            ),
    {
        proof {
            lemma_shortened(mantissa as int, scale as nat);
        }
        let mut m = mantissa;
        let mut k = scale;
        while k > 0 && m % 10 == 0
            invariant
                shortened(m as int, k as nat) == shortened(mantissa as int, scale as nat),
            decreases k,
        {
            m = m / 10;
            k = k - 1;
        }
        if k <= MAX_SCALE {
            Some(Weight { mantissa: m, scale: k })
        } else {
            None
        }
    }

    /// Reads a weight from a decimal literal such as `200`, `102.5` or
    /// `-0.25`.
    pub fn parse(text: &str) -> (r: Option<Weight>)
        ensures
            r == parsed(text@),
            r matches Some(w) ==> w.wf() && w@.same(read_literal(text@)->0.value()),
    {
        proof {
            if parsed(text@) is Some {
                lemma_read_literal_sound(text@);
                lemma_literal_weight_value(read_literal(text@)->0);
            }
        }
        if !text.is_ascii() {
            proof {
                if read_literal(text@) is Some {
                    lemma_literal_is_ascii(text@);
                }
            }
            return None;
        }
        let n = text.unicode_len();
        let negative = n > 0 && text.get_ascii(0) == 45;
        let start: usize = if negative { 1 } else { 0 };
        let dot = scan_digits(text, start);
        if dot == start {
            return None;
        }
        let mut last: usize = dot;
        let first: usize = if dot == n { dot } else { dot + 1 };
        if dot < n {
            if text.get_ascii(dot) != 46 {
                return None;
            }
            let end = scan_digits(text, dot + 1);
            if end != n || end == dot + 1 {
                return None;
            }
            last = end;
            while last > first && text.get_ascii(last - 1) == 48
                invariant
                    text.is_ascii(),
                    first <= last <= n == text@.len(),
                    trim_zeros(text@.subrange(first as int, n as int)) == trim_zeros(
                        text@.subrange(first as int, last as int),
                    ),
                decreases last,
            {
                assert(text@.subrange(first as int, last as int).drop_last() =~= text@.subrange(
                    first as int,
                    last as int - 1,
                ));
                last = last - 1;
            }
        }
        let ghost literal = read_literal(text@)->0;
        let ghost whole = text@.subrange(start as int, dot as int);
        let ghost fraction = text@.subrange(first as int, last as int);
        proof {
            lemma_digits_end(text@, start as int);
            if dot < n {
                lemma_digits_end(text@, dot as int + 1);
            }
            assert(literal.whole == whole);
            assert(trim_zeros(literal.fraction) == fraction);
        }
        if last - first > MAX_SCALE as usize {
            return None;
        }
        let limit: u64 = if negative { 0x8000_0000_0000_0000 } else { 0x7fff_ffff_ffff_ffff };
        let size = match read_digits(text, start, dot, 0, limit, Ghost(Seq::empty())) {
            Some(value) => {
                assert(Seq::<char>::empty() + whole =~= whole);
                match read_digits(text, first, last, value, limit, Ghost(whole)) {
                    Some(size) => size,
                    None => {
                        return None;
                    },
                }
            },
            None => {
                proof {
                    assert(Seq::<char>::empty() + whole =~= whole);
                    lemma_digits_value_grows(whole, fraction);
                }
                return None;
            },
        };
        let mantissa: i64 = if !negative {
            size as i64
        } else if size == 0x8000_0000_0000_0000 {
            i64::MIN
        } else {
            -(size as i64)
        };
        proof {
            if fraction.len() > 0 {
                assert((whole + fraction).last() == fraction.last());
                assert(fraction.last() != '0');
                assert(is_digit(fraction.last()));
            }
        }
        Some(Weight { mantissa, scale: (last - first) as u8 })
    }

    /// Reading the text of a weight gives the weight back.
    pub proof fn lemma_text_parsed(self)
        requires
            self.wf(),
        ensures
            parsed(self.text()) == Some(self),
    {
        let size = self.size();
        let scale = self.scale as nat;
        let unit = pow10(scale);
        lemma_pow10_increases(0, scale);
        let whole = nat_text(size / unit);
        let fraction = if scale > 0 {
            fixed_text(size % unit, scale)
        } else {
            Seq::empty()
        };
        let l = Literal { negative: self.mantissa < 0, whole, fraction };
        lemma_nat_text(size / unit);
        lemma_fixed_text(size % unit, scale);
        lemma_fundamental_div_mod(size as int, unit as int);
        assert(l.text() =~= self.text());
        lemma_read_literal_complete(l);
        lemma_digits_value_concat(whole, fraction);
        if scale > 0 {
            lemma_mod_mod(size as int, 10, pow10((scale - 1) as nat) as int);
            lemma_digit_char(size % 10);
            lemma_small_mod(size % unit, unit);
            assert(unit * (size / unit) == (size / unit) * unit) by (nonlinear_arith);
        } else {
            assert(unit == 1);
            let q = (size / unit) as int;
            assert(q * 1 == q) by (nonlinear_arith);
        }
    }

    /// Writes the weight at the end of `out`.
    pub fn append_to(&self, out: &mut String)
        requires
            self.wf(),
        ensures
            final(out)@ == old(out)@ + self.text(),
    {
        proof {
            lemma_pow10_increases(self.scale as nat, 18);
            assert(pow10(18) == 1_000_000_000_000_000_000) by {
                reveal_with_fuel(pow10, 19);
            }
        }
        let size: u64 = if self.mantissa < 0 {
            proof {
                reveal_strlit("-");
            }
            out.append("-");
            (-(self.mantissa + 1)) as u64 + 1
        } else {
            self.mantissa as u64
        };
        let unit = ten_to(self.scale);
        append_nat(out, (size / unit) as u128);
        if self.scale > 0 {
            proof {
                reveal_strlit(".");
            }
            out.append(".");
            append_fixed(out, size % unit, self.scale);
        }
        assert(out@ =~= old(out)@ + self.text());
    }

    /// The weight as text.
    pub fn to_text(&self) -> (s: String)
        requires
            self.wf(),
        ensures
            s@ == self.text(),
    {
        let mut s = String::new();
        self.append_to(&mut s);
        assert(s@ =~= self.text());
        s
    }
}

} // verus!
