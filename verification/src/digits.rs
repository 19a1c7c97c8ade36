//! Powers of ten and decimal digits.

use vstd::prelude::*;
use vstd::arithmetic::div_mod::lemma_mod_breakdown;

verus! {

/// Ten to the power `n`.
pub open spec fn pow10(n: nat) -> nat
    decreases n,
{
    if n == 0 {
        1
    } else {
        10 * pow10((n - 1) as nat)
    }
}

/// The character that writes the digit `d`.
pub open spec fn digit_char(d: nat) -> char {
    ((d + 48) as u8) as char
}

/// The character is one of the ten decimal digits.
pub open spec fn is_digit(c: char) -> bool {
    '0' <= c && c <= '9'
}

/// The number that a digit stands for.
pub open spec fn digit_value(c: char) -> nat {
    (c as nat - 48) as nat
}

/// The decimal digits of `n`, without leading zeros; `0` is one digit.
pub open spec fn nat_text(n: nat) -> Seq<char>
    decreases n,
{
    if n < 10 {
        seq![digit_char(n)]
    } else {
        nat_text(n / 10).push(digit_char(n % 10))
    }
}

/// The decimal digits of `n`, after a minus sign where `n` is negative.
pub open spec fn int_text(n: int) -> Seq<char> {
    if n < 0 {
        seq!['-'] + nat_text((-n) as nat)
    } else {
        nat_text(n as nat)
    }
}

/// The last `width` decimal digits of `n`, with zeros in front where `n`
/// has fewer.
pub open spec fn fixed_text(n: nat, width: nat) -> Seq<char>
    decreases width,
{
    if width == 0 {
        Seq::empty()
    } else {
        fixed_text(n / 10, (width - 1) as nat).push(digit_char(n % 10))
    }
}

/// Every character of `s` is a decimal digit.
pub open spec fn all_digits(s: Seq<char>) -> bool {
    forall|i: int| 0 <= i < s.len() ==> is_digit(#[trigger] s[i])
}

/// The number that a run of decimal digits writes; the empty run writes 0.
pub open spec fn digits_value(s: Seq<char>) -> nat
    decreases s.len(),
{
    if s.len() == 0 {
        0
    } else {
        digits_value(s.drop_last()) * 10 + digit_value(s.last())
    }
}

/// The first position at or after `from` at which `s` has no digit.
pub open spec fn digits_end(s: Seq<char>, from: int) -> int
    decreases s.len() - from,
{
    if 0 <= from < s.len() && is_digit(s[from]) {
        digits_end(s, from + 1)
    } else {
        from
    }
}

/// A run of digits without its zeros at the end.
pub open spec fn trim_zeros(s: Seq<char>) -> Seq<char>
    decreases s.len(),
{
    if s.len() > 0 && s.last() == '0' {
        trim_zeros(s.drop_last())
    } else {
        s
    }
}

/// A larger exponent gives a larger power.
pub proof fn lemma_pow10_increases(i: nat, j: nat)
    requires
        i <= j,
    ensures
        0 < pow10(i) <= pow10(j),
    decreases j,
{
    if j == 0 {
    } else if i == j {
        lemma_pow10_increases(0, (j - 1) as nat);
    } else {
        lemma_pow10_increases(i, (j - 1) as nat);
    }
}

/// Powers of ten multiply by adding their exponents.
pub proof fn lemma_pow10_adds(i: nat, j: nat)
    ensures
        pow10(i + j) == pow10(i) * pow10(j),
    decreases i,
{
    let p = pow10(j) as int;
    if i == 0 {
        assert(1 * p == p) by (nonlinear_arith);
    } else {
        let q = pow10((i - 1) as nat) as int;
        lemma_pow10_adds((i - 1) as nat, j);
        assert(pow10(i + j) == 10 * pow10((i - 1 + j) as nat));
        assert(10 * (q * p) == (10 * q) * p) by (nonlinear_arith);
    }
}

/// One more digit at the end multiplies the value by ten and adds the digit.
pub proof fn lemma_digits_value_push(s: Seq<char>, c: char)
    ensures
        digits_value(s.push(c)) == digits_value(s) * 10 + digit_value(c),
{
    assert(s.push(c).drop_last() =~= s);
}

/// Digits written after a run do not make its value smaller.
pub proof fn lemma_digits_value_grows(a: Seq<char>, b: Seq<char>)
    ensures
        digits_value(a) <= digits_value(a + b),
    decreases b.len(),
{
    if b.len() == 0 {
        assert(a + b =~= a);
    } else {
        lemma_digits_value_grows(a, b.drop_last());
        assert((a + b).drop_last() =~= a + b.drop_last());
    }
}

/// Between `from` and the end of the run that starts there, `s` has only
/// digits, and the run stops at the end of `s` or before a character that
/// is no digit.
pub proof fn lemma_digits_end(s: Seq<char>, from: int)
    requires
        0 <= from <= s.len(),
    ensures
        from <= digits_end(s, from) <= s.len(),
        forall|i: int| from <= i < digits_end(s, from) ==> is_digit(#[trigger] s[i]),
        digits_end(s, from) < s.len() ==> !is_digit(s[digits_end(s, from)]),
    decreases s.len() - from,
{
    if from < s.len() && is_digit(s[from]) {
        lemma_digits_end(s, from + 1);
    }
}

/// A run of digits that ends at the end of `s`, or before a character that
/// is no digit, is the run that `digits_end` finds.
pub proof fn lemma_digits_end_is(s: Seq<char>, from: int, to: int)
    requires
        0 <= from <= to <= s.len(),
        forall|i: int| from <= i < to ==> is_digit(#[trigger] s[i]),
        to < s.len() ==> !is_digit(s[to]),
    ensures
        digits_end(s, from) == to,
    decreases to - from,
{
    if from < to {
        lemma_digits_end_is(s, from + 1, to);
    }
}

/// The value of two runs of digits written one after the other.
pub proof fn lemma_digits_value_concat(a: Seq<char>, b: Seq<char>)
    ensures
        digits_value(a + b) == digits_value(a) * pow10(b.len()) + digits_value(b),
    decreases b.len(),
{
    if b.len() == 0 {
        assert(a + b =~= a);
        assert(digits_value(a) * 1 == digits_value(a)) by (nonlinear_arith);
    } else {
        lemma_digits_value_concat(a, b.drop_last());
        assert((a + b).drop_last() =~= a + b.drop_last());
        assert((a + b).last() == b.last());
        let x = digits_value(a) as int;
        let p = pow10(b.drop_last().len()) as int;
        assert(pow10(b.len()) == 10 * p);
        assert((x * p) * 10 == x * (10 * p)) by (nonlinear_arith);
    }
}

/// What `trim_zeros` leaves is the start of the run, it does not end in a
/// zero, and each zero that was taken off stood for a factor of ten.
pub proof fn lemma_trim_zeros(a: Seq<char>, s: Seq<char>)
    ensures
        trim_zeros(s).len() <= s.len(),
        trim_zeros(s) == s.take(trim_zeros(s).len() as int),
        trim_zeros(s).len() > 0 ==> trim_zeros(s).last() != '0',
        forall|i: int| trim_zeros(s).len() <= i < s.len() ==> #[trigger] s[i] == '0',
        digits_value(a + s) == digits_value(a + trim_zeros(s)) * pow10(
            (s.len() - trim_zeros(s).len()) as nat,
        ),
    decreases s.len(),
{
    if s.len() > 0 && s.last() == '0' {
        let t = s.drop_last();
        lemma_trim_zeros(a, t);
        assert(trim_zeros(s) =~= s.take(trim_zeros(s).len() as int));
        assert forall|i: int| trim_zeros(s).len() <= i < s.len() implies #[trigger] s[i]
            == '0' by {
            if i < t.len() {
                assert(t[i] == '0');
            }
        }
        assert((a + s).drop_last() =~= a + t);
        assert((a + s).last() == '0');
        let v = digits_value(a + trim_zeros(s)) as int;
        let p = pow10((t.len() - trim_zeros(s).len()) as nat) as int;
        assert(pow10((s.len() - trim_zeros(s).len()) as nat) == 10 * p);
        assert((v * p) * 10 == v * (10 * p)) by (nonlinear_arith);
    } else {
        assert(s.take(s.len() as int) =~= s);
        assert(digits_value(a + s) * 1 == digits_value(a + s)) by (nonlinear_arith);
    }
}

/// The character of a digit is a digit character with that value, and only
/// the digit zero is written `0`.
pub proof fn lemma_digit_char(d: nat)
    requires
        d < 10,
    ensures
        is_digit(digit_char(d)),
        digit_value(digit_char(d)) == d,
        digit_char(d) == '0' <==> d == 0,
{
}

/// The text of a natural number is made of digits, has no zero in front
/// unless it is the single digit `0`, and writes that number.
pub proof fn lemma_nat_text(n: nat)
    ensures
        nat_text(n).len() >= 1,
        all_digits(nat_text(n)),
        n > 0 ==> nat_text(n)[0] != '0',
        digits_value(nat_text(n)) == n,
    decreases n,
{
    lemma_digit_char(n % 10);
    if n < 10 {
        assert(nat_text(n).drop_last() =~= Seq::<char>::empty());
        assert(digits_value(nat_text(n).drop_last()) == 0);
    } else {
        lemma_nat_text(n / 10);
        lemma_digits_value_push(nat_text(n / 10), digit_char(n % 10));
    }
}

/// The fixed-width text of a number has exactly `width` digits and writes
/// the number modulo ten to the power `width`.
pub proof fn lemma_fixed_text(n: nat, width: nat)
    ensures
        fixed_text(n, width).len() == width,
        all_digits(fixed_text(n, width)),
        digits_value(fixed_text(n, width)) == n % pow10(width),
        width > 0 ==> fixed_text(n, width).last() == digit_char(n % 10),
    decreases width,
{
    if width == 0 {
    } else {
        let rest = (width - 1) as nat;
        lemma_digit_char(n % 10);
        lemma_fixed_text(n / 10, rest);
        lemma_digits_value_push(fixed_text(n / 10, rest), digit_char(n % 10));
        lemma_pow10_increases(0, rest);
        lemma_mod_breakdown(n as int, 10, pow10(rest) as int);
    }
}

/// The largest exponent whose power of ten is computed here.
pub const MAX_EXPONENT: u8 = 19;

/// Ten to the power `k`.
pub fn ten_to(k: u8) -> (p: u64)
    requires
        k <= MAX_EXPONENT,
    ensures
        p == pow10(k as nat),
{
    let mut p: u64 = 1;
    let mut i: u8 = 0;
    while i < k
        invariant
            i <= k <= MAX_EXPONENT,
            p == pow10(i as nat),
        decreases k - i,
    {
        proof {
            lemma_pow10_increases((i + 1) as nat, 19);
            assert(pow10(19) == 10_000_000_000_000_000_000) by {
                reveal_with_fuel(pow10, 20);
            }
        }
        p = p * 10;
        i = i + 1;
    }
    p
}

/// Whether the ASCII code `b` is that of a decimal digit.
pub fn is_digit_code(b: u8) -> (r: bool)
    ensures
        r == (48 <= b <= 57),
{
    48 <= b && b <= 57
}

/// The position after the run of digits that starts at `from` in `text`.
pub fn scan_digits(text: &str, from: usize) -> (end: usize)
    requires
        text.is_ascii(),
        from <= text@.len(),
    ensures
        end == digits_end(text@, from as int),
        from <= end <= text@.len(),
{
    let n = text.unicode_len();
    let mut i = from;
    while i < n && is_digit_code(text.get_ascii(i))
        invariant
            text.is_ascii(),
            n == text@.len(),
            from <= i <= n,
            digits_end(text@, from as int) == digits_end(text@, i as int),
        decreases n - i,
    {
        i = i + 1;
    }
    i
}

/// Reads the digits of `text` from `from` up to `to` as the continuation of
/// a number whose digits so far, `before`, have the value `start`. Gives
/// `None` exactly when the number is larger than `limit`.
pub(crate) fn read_digits(
    text: &str,
    from: usize,
    to: usize,
    start: u64,
    limit: u64,
    Ghost(before): Ghost<Seq<char>>,
) -> (r: Option<u64>)
    requires
        text.is_ascii(),
        from <= to <= text@.len(),
        forall|i: int| from <= i < to ==> is_digit(#[trigger] text@[i]),
        start == digits_value(before),
        start <= limit,
    ensures
        r matches Some(v) ==> v == digits_value(before + text@.subrange(from as int, to as int))
            && v <= limit,
        r is None ==> digits_value(before + text@.subrange(from as int, to as int)) > limit,
{
    let mut value: u64 = start;
    let mut i: usize = from;
    assert(before + text@.subrange(from as int, from as int) =~= before);
    while i < to
        invariant
            text.is_ascii(),
            from <= i <= to <= text@.len(),
            forall|k: int| from <= k < to ==> is_digit(#[trigger] text@[k]),
            value == digits_value(before + text@.subrange(from as int, i as int)),
            value <= limit,
        decreases to - i,
    {
        let code: u8 = text.get_ascii(i);
        let next: u128 = value as u128 * 10 + (code - 48) as u128;
        proof {
            let seen = before + text@.subrange(from as int, i as int);
            assert(is_digit(text@[i as int]));
            lemma_digits_value_push(seen, text@[i as int]);
            assert(seen.push(text@[i as int]) =~= before + text@.subrange(
                from as int,
                i as int + 1,
            ));
            assert(next == digits_value(before + text@.subrange(from as int, i as int + 1)));
        }
        if next > limit as u128 {
            proof {
                let seen = before + text@.subrange(from as int, i as int + 1);
                lemma_digits_value_grows(seen, text@.subrange(i as int + 1, to as int));
                assert(seen + text@.subrange(i as int + 1, to as int) =~= before
                    + text@.subrange(from as int, to as int));
            }
            return None;
        }
        value = next as u64;
        i = i + 1;
    }
    Some(value)
}

/// The one-character text of the digit `d`.
pub fn digit_str(d: u8) -> (s: &'static str)
    requires
        d < 10,
    ensures
        s@ == seq![digit_char(d as nat)],
{
    proof {
        reveal_strlit("0");
        reveal_strlit("1");
        reveal_strlit("2");
        reveal_strlit("3");
        reveal_strlit("4");
        reveal_strlit("5");
        reveal_strlit("6");
        reveal_strlit("7");
        reveal_strlit("8");
        reveal_strlit("9");
    }
    let s = match d {
        0 => "0",
        1 => "1",
        2 => "2",
        3 => "3",
        4 => "4",
        5 => "5",
        6 => "6",
        7 => "7",
        8 => "8",
        _ => "9",
    };
    assert(s@ =~= seq![digit_char(d as nat)]);
    s
}

/// Writes the decimal digits of `n` at the end of `out`.
pub fn append_nat(out: &mut String, n: u128)
    ensures
        final(out)@ == old(out)@ + nat_text(n as nat),
    decreases n,
{
    if n >= 10 {
        append_nat(out, n / 10);
    }
    out.append(digit_str((n % 10) as u8));
    assert(out@ =~= old(out)@ + nat_text(n as nat));
}

/// Writes `n` in decimal at the end of `out`, with a minus sign where it
/// is negative.
pub fn append_int(out: &mut String, n: i128)
    ensures
        final(out)@ == old(out)@ + int_text(n as int),
{
    if n < 0 {
        proof {
            reveal_strlit("-");
        }
        out.append("-");
        let size: u128 = (-(n + 1)) as u128 + 1;
        append_nat(out, size);
        assert(out@ =~= old(out)@ + int_text(n as int));
    } else {
        append_nat(out, n as u128);
    }
}

/// Writes the last `width` decimal digits of `n` at the end of `out`.
pub fn append_fixed(out: &mut String, n: u64, width: u8)
    ensures
        final(out)@ == old(out)@ + fixed_text(n as nat, width as nat),
    decreases width,
{
    if width > 0 {
        append_fixed(out, n / 10, width - 1);
        out.append(digit_str((n % 10) as u8));
    }
    assert(out@ =~= old(out)@ + fixed_text(n as nat, width as nat));
}

} // verus!
