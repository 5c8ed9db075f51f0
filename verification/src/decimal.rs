//! Exact non-negative decimals and the grammar of their text form.

use vstd::prelude::*;
use vstd::string::*;

verus! {

/// A non-negative decimal held exactly: it stands for `mantissa / 10^scale`.
#[derive(Clone, Copy, Debug, PartialEq, Eq, Structural)]
pub struct Decimal {
    pub mantissa: u128,
    pub scale: usize,
}

pub open spec fn is_digit(c: char) -> bool {
    '0' <= c <= '9'
}

pub open spec fn digit_value(c: char) -> nat {
    (c as u32 - '0' as u32) as nat
}

/// How many digits stand at the front of `s`.
pub open spec fn leading_digits(s: Seq<char>) -> nat
    decreases s.len(),
{
    if s.len() > 0 && is_digit(s[0]) {
        1 + leading_digits(s.drop_first())
    } else {
        0
    }
}

/// The grammar: one or more digits, then optionally a dot and one or more digits.
pub open spec fn is_decimal_text(s: Seq<char>) -> bool {
    let d = leading_digits(s) as int;
    &&& d >= 1
    &&& (d == s.len() || (s[d] == '.' && d + 1 < s.len() && forall|i: int|
        d < i < s.len() ==> is_digit(#[trigger] s[i])))
}

/// The number that the digits of `s` spell once everything else is left out.
pub open spec fn mantissa_of(s: Seq<char>) -> nat
    decreases s.len(),
{
    if s.len() == 0 {
        0
    } else if is_digit(s.last()) {
        mantissa_of(s.drop_last()) * 10 + digit_value(s.last())
    } else {
        mantissa_of(s.drop_last())
    }
}

/// The number of places behind the dot.
pub open spec fn scale_of(s: Seq<char>) -> nat {
    let d = leading_digits(s);
    if d >= s.len() {
        0
    } else {
        (s.len() - d - 1) as nat
    }
}

/// What a text denotes: a decimal where it follows the grammar and its
/// mantissa fits, nothing otherwise.
pub open spec fn parse_spec(s: Seq<char>) -> Option<Decimal> {
    if is_decimal_text(s) && mantissa_of(s) <= u128::MAX {
        Some(Decimal { mantissa: mantissa_of(s) as u128, scale: scale_of(s) as usize })
    } else {
        None
    }
}

pub open spec fn zero() -> Decimal {
    Decimal { mantissa: 0, scale: 0 }
}

/// What a text denotes, with zero standing in for a text that denotes nothing.
pub open spec fn parse_or_zero_spec(s: Seq<char>) -> Decimal {
    match parse_spec(s) {
        Some(d) => d,
        None => zero(),
    }
}

proof fn lemma_leading_digits(s: Seq<char>, d: int)
    requires
        0 <= d <= s.len(),
        forall|j: int| 0 <= j < d ==> is_digit(#[trigger] s[j]),
        d == s.len() || !is_digit(s[d]),
    ensures
        leading_digits(s) == d,
    decreases s.len(),
{
    if d > 0 {
        let t = s.drop_first();
        assert forall|j: int| 0 <= j < d - 1 implies is_digit(#[trigger] t[j]) by {
            assert(t[j] == s[j + 1]);
        }
        if d < s.len() {
            assert(t[d - 1] == s[d]);
        }
        lemma_leading_digits(t, d - 1);
    }
}

proof fn lemma_mantissa_step(s: Seq<char>, i: int)
    requires
        0 <= i < s.len(),
    ensures
        is_digit(s[i]) ==> mantissa_of(s.take(i + 1)) == mantissa_of(s.take(i)) * 10 + digit_value(
            s[i],
        ),
        !is_digit(s[i]) ==> mantissa_of(s.take(i + 1)) == mantissa_of(s.take(i)),
{
    assert(s.take(i + 1).drop_last() =~= s.take(i));
    assert(s.take(i + 1).last() == s[i]);
}

proof fn lemma_mantissa_grows(s: Seq<char>, k: int)
    requires
        0 <= k <= s.len(),
    ensures
        mantissa_of(s.take(k)) <= mantissa_of(s),
    decreases s.len() - k,
{
    if k == s.len() {
        assert(s.take(k) =~= s);
    } else {
        lemma_mantissa_step(s, k);
        lemma_mantissa_grows(s, k + 1);
        assert(mantissa_of(s.take(k)) * 10 >= mantissa_of(s.take(k)));
    }
}

impl Decimal {
    /// Reads a decimal from its text form.
    pub fn parse(text: &str) -> (r: Option<Decimal>)
        ensures
            r == parse_spec(text@),
    {
        let ghost s = text@;
        if !text.is_ascii() {
            proof {
                let bad = choose|i: int| 0 <= i < s.len() && !('\0' <= #[trigger] s[i] <= '\u{7f}');
                assert(!is_digit(s[bad]) && s[bad] != '.');
                if is_decimal_text(s) {
                    lemma_not_digit_bounds_leading(s, bad);
                }
            }
            return None;
        }
        let n = text.unicode_len();
        let mut mantissa: u128 = 0;
        let mut i: usize = 0;
        while i < n && is_digit_byte(text.get_ascii(i))
            invariant
                s == text@,
                text.is_ascii(),
                n == s.len(),
                i <= n,
                forall|j: int| 0 <= j < i ==> is_digit(#[trigger] s[j]),
                mantissa == mantissa_of(s.take(i as int)),
            decreases n - i,
        {
            let v: u128 = digit_of_byte(text.get_ascii(i));
            proof {
                lemma_mantissa_step(s, i as int);
            }
            if mantissa > (u128::MAX - v) / 10 {
                proof {
                    lemma_mantissa_grows(s, i + 1);
                }
                return None;
            }
            mantissa = mantissa * 10 + v;
            i += 1;
        }
        let d = i;
        proof {
            lemma_leading_digits(s, d as int);
        }
        if d == 0 {
            return None;
        }
        if d == n {
            proof {
                assert(s.take(n as int) =~= s);
            }
            return Some(Decimal { mantissa, scale: 0 });
        }
        if text.get_ascii(d) != 46u8 || d + 1 == n {
            return None;
        }
        proof {
            lemma_mantissa_step(s, d as int);
        }
        i = d + 1;
        while i < n
            invariant
                s == text@,
                text.is_ascii(),
                n == s.len(),
                d < i <= n,
                leading_digits(s) == d,
                s[d as int] == '.',
                forall|j: int| d < j < i ==> is_digit(#[trigger] s[j]),
                mantissa == mantissa_of(s.take(i as int)),
            decreases n - i,
        {
            let b = text.get_ascii(i);
            if !is_digit_byte(b) {
                return None;
            }
            let v: u128 = digit_of_byte(b);
            proof {
                lemma_mantissa_step(s, i as int);
            }
            if mantissa > (u128::MAX - v) / 10 {
                proof {
                    lemma_mantissa_grows(s, i + 1);
                }
                return None;
            }
            mantissa = mantissa * 10 + v;
            i += 1;
        }
        proof {
            assert(s.take(n as int) =~= s);
        }
        Some(Decimal { mantissa, scale: n - d - 1 })
    }

    /// Reads a decimal from its text form. A text that denotes none, because
    /// it does not follow the grammar or because its digits do not fit the
    /// mantissa, reads as zero.
    pub fn parse_or_zero(text: &str) -> (r: Decimal)
        ensures
            r == parse_or_zero_spec(text@),
    {
        match Decimal::parse(text) {
            Some(d) => d,
            None => Decimal { mantissa: 0, scale: 0 },
        }
    }
}

proof fn lemma_not_digit_bounds_leading(s: Seq<char>, k: int)
    requires
        0 <= k < s.len(),
        !is_digit(s[k]),
    ensures
        leading_digits(s) <= k,
    decreases s.len(),
{
    if k > 0 && is_digit(s[0]) {
        assert(s.drop_first()[k - 1] == s[k]);
        lemma_not_digit_bounds_leading(s.drop_first(), k - 1);
    }
}

fn is_digit_byte(b: u8) -> (r: bool)
    ensures
        r == (48 <= b <= 57),
{
    48 <= b && b <= 57
}

fn digit_of_byte(b: u8) -> (v: u128)
    requires
        48 <= b <= 57,
    ensures
        v == b - 48,
{
    let low: u8 = b - 48;
    low as u128
}

/// The character that writes a digit.
pub open spec fn digit_char(d: nat) -> char {
    if d == 0 {
        '0'
    } else if d == 1 {
        '1'
    } else if d == 2 {
        '2'
    } else if d == 3 {
        '3'
    } else if d == 4 {
        '4'
    } else if d == 5 {
        '5'
    } else if d == 6 {
        '6'
    } else if d == 7 {
        '7'
    } else if d == 8 {
        '8'
    } else {
        '9'
    }
}

/// A number written in decimal digits, without leading zeros.
pub open spec fn decimal_digits(n: nat) -> Seq<char>
    decreases n,
{
    if n < 10 {
        seq![digit_char(n)]
    } else {
        decimal_digits(n / 10).push(digit_char(n % 10))
    }
}

/// `k` zeros.
pub open spec fn zeros(k: nat) -> Seq<char> {
    Seq::new(k, |i: int| '0')
}

/// The text of a decimal: the digits of its mantissa, with a dot in front of
/// the last `scale` of them where `scale` is not zero, and with zeros put in
/// front so that at least one digit stands before the dot.
pub open spec fn text_of(d: Decimal) -> Seq<char> {
    let digits = decimal_digits(d.mantissa as nat);
    let n = digits.len() as int;
    if d.scale == 0 {
        digits
    } else if n > d.scale {
        digits.subrange(0, n - d.scale) + seq!['.'] + digits.subrange(n - d.scale, n)
    } else {
        seq!['0'] + seq!['.'] + (zeros((d.scale - n) as nat) + digits)
    }
}

proof fn lemma_digit_char(d: nat)
    requires
        d < 10,
    ensures
        is_digit(digit_char(d)),
        digit_value(digit_char(d)) == d,
{
}

proof fn lemma_digits_are_digits(n: nat)
    ensures
        decimal_digits(n).len() >= 1,
        forall|i: int| 0 <= i < decimal_digits(n).len() ==> is_digit(#[trigger] decimal_digits(n)[i]),
    decreases n,
{
    if n < 10 {
        lemma_digit_char(n);
    } else {
        lemma_digits_are_digits(n / 10);
        lemma_digit_char(n % 10);
    }
}

proof fn lemma_zeros_mantissa(k: nat)
    ensures
        mantissa_of(zeros(k)) == 0,
    decreases k,
{
    if k > 0 {
        lemma_zeros_mantissa((k - 1) as nat);
        assert(zeros(k).drop_last() =~= zeros((k - 1) as nat));
        assert(zeros(k).last() == '0');
    }
}

proof fn lemma_padded_mantissa(k: nat, n: nat)
    ensures
        mantissa_of(zeros(k) + decimal_digits(n)) == n,
    decreases n,
{
    let s = zeros(k) + decimal_digits(n);
    if n < 10 {
        lemma_digit_char(n);
        lemma_zeros_mantissa(k);
        assert(s.drop_last() =~= zeros(k));
        assert(s.last() == digit_char(n));
    } else {
        lemma_digit_char(n % 10);
        lemma_padded_mantissa(k, n / 10);
        assert(s.drop_last() =~= zeros(k) + decimal_digits(n / 10));
        assert(s.last() == digit_char(n % 10));
    }
}

proof fn lemma_dot_is_skipped(a: Seq<char>, b: Seq<char>)
    ensures
        mantissa_of(a + seq!['.'] + b) == mantissa_of(a + b),
    decreases b.len(),
{
    let with = a + seq!['.'] + b;
    let without = a + b;
    if b.len() == 0 {
        assert(with.drop_last() =~= a);
        assert(with.last() == '.');
        assert(without =~= a);
    } else {
        lemma_dot_is_skipped(a, b.drop_last());
        assert(with.drop_last() =~= a + seq!['.'] + b.drop_last());
        assert(without.drop_last() =~= a + b.drop_last());
        assert(with.last() == b.last());
        assert(without.last() == b.last());
    }
}

proof fn lemma_dotted_text(a: Seq<char>, b: Seq<char>, n: nat, k: nat)
    requires
        a.len() >= 1,
        b.len() >= 1,
        a + b == zeros(k) + decimal_digits(n),
    ensures
        is_decimal_text(a + seq!['.'] + b),
        mantissa_of(a + seq!['.'] + b) == n,
        scale_of(a + seq!['.'] + b) == b.len(),
{
    let t = a + seq!['.'] + b;
    let joined = zeros(k) + decimal_digits(n);
    lemma_digits_are_digits(n);
    assert forall|i: int| 0 <= i < joined.len() implies is_digit(#[trigger] joined[i]) by {
        if i >= k {
            assert(joined[i] == decimal_digits(n)[i - k]);
        }
    }
    assert forall|j: int| 0 <= j < a.len() implies is_digit(#[trigger] t[j]) by {
        assert(t[j] == (a + b)[j]);
    }
    assert(t[a.len() as int] == '.');
    lemma_leading_digits(t, a.len() as int);
    assert forall|i: int| a.len() < i < t.len() implies is_digit(#[trigger] t[i]) by {
        assert(t[i] == (a + b)[i - 1]);
    }
    lemma_dot_is_skipped(a, b);
    lemma_padded_mantissa(k, n);
}

/// Reading the text of a decimal gives the decimal back.
pub proof fn lemma_text_round_trip(d: Decimal)
    ensures
        parse_spec(text_of(d)) == Some(d),
{
    let m = d.mantissa as nat;
    let digits = decimal_digits(m);
    let n = digits.len() as int;
    lemma_digits_are_digits(m);
    assert(zeros(0) + digits =~= digits);
    if d.scale == 0 {
        lemma_leading_digits(digits, n);
        lemma_padded_mantissa(0, m);
    } else if n > d.scale {
        let a = digits.subrange(0, n - d.scale);
        let b = digits.subrange(n - d.scale, n);
        assert(a + b =~= digits);
        lemma_dotted_text(a, b, m, 0);
    } else {
        let k = (d.scale - n) as nat;
        let a = seq!['0'];
        let b = zeros(k) + digits;
        assert(a + b =~= zeros(k + 1) + digits);
        lemma_dotted_text(a, b, m, k + 1);
    }
}

fn digit_text(d: u128) -> (r: &'static str)
    requires
        d < 10,
    ensures
        r@ == seq![digit_char(d as nat)],
{
    proof {
        reveal_strlit("0");
        reveal_strlit("1");
        reveal_strlit("2");
        reveal_strlit("3");
        reveal_strlit("4");
        reveal_strlit("5");
        reveal_strlit("6");
        reveal_strlit("7");
        reveal_strlit("8");
        reveal_strlit("9");
    }
    let r = if d == 0 {
        "0"
    } else if d == 1 {
        "1"
    } else if d == 2 {
        "2"
    } else if d == 3 {
        "3"
    } else if d == 4 {
        "4"
    } else if d == 5 {
        "5"
    } else if d == 6 {
        "6"
    } else if d == 7 {
        "7"
    } else if d == 8 {
        "8"
    } else {
        "9"
    };
    assert(r@ =~= seq![digit_char(d as nat)]);
    r
}

/// Writes a number in decimal digits.
pub fn number_text(n: u128) -> (r: String)
    ensures
        r@ == decimal_digits(n as nat),
    decreases n,
{
    if n < 10 {
        String::from_str(digit_text(n))
    } else {
        let mut text = number_text(n / 10);
        text.append(digit_text(n % 10));
        assert(text@ =~= decimal_digits(n as nat));
        text
    }
}

impl Decimal {
    /// Writes the decimal as text, every place behind the dot included.
    /// Reading that text gives the decimal back.
    pub fn to_text(&self) -> (r: String)
        ensures
            r@ == text_of(*self),
            parse_spec(r@) == Some(*self),
    {
        proof {
            lemma_text_round_trip(*self);
            lemma_digits_are_digits(self.mantissa as nat);
        }
        let digits = number_text(self.mantissa);
        if self.scale == 0 {
            return digits;
        }
        let n = digits.as_str().unicode_len();
        let mut out = String::new();
        if n > self.scale {
            out.append(digits.as_str().substring_char(0, n - self.scale));
            out.append(".");
            out.append(digits.as_str().substring_char(n - self.scale, n));
            proof {
                reveal_strlit(".");
                assert(out@ =~= text_of(*self));
            }
        } else {
            out.append("0");
            out.append(".");
            let pad = self.scale - n;
            let mut i: usize = 0;
            proof {
                reveal_strlit("0");
                reveal_strlit(".");
                assert(out@ =~= seq!['0'] + seq!['.'] + zeros(0));
            }
            while i < pad
                invariant
                    i <= pad,
                    out@ == seq!['0'] + seq!['.'] + zeros(i as nat),
                decreases pad - i,
            {
                out.append("0");
                proof {
                    reveal_strlit("0");
                    assert(out@ =~= seq!['0'] + seq!['.'] + zeros((i + 1) as nat));
                }
                i += 1;
            }
            out.append(digits.as_str());
            assert(out@ =~= text_of(*self));
        }
        out
    }
}

} // verus!
