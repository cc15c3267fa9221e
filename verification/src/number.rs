//! Unsigned numbers in decimal text.

use vstd::arithmetic::power::pow;
use vstd::prelude::*;
use crate::text::{decimal, digit_char, push_text};

verus! {

/// Why a text is not a number.
#[derive(Debug, Clone, Copy, PartialEq, Eq)]
pub enum NumberError {
    Empty,
    InvalidDigit,
    TooLarge,
}

impl NumberError {
    /// The words for the error.
    pub open spec fn words(self) -> Seq<char> {
        match self {
            NumberError::Empty => "cannot parse integer from empty string"@,
            NumberError::InvalidDigit => "invalid digit found in string"@,
            NumberError::TooLarge => "number too large to fit in target type"@,
        }
    }

    /// Appends the words for the error.
    pub fn push_words(self, out: &mut String)
        ensures
            final(out)@ == old(out)@ + self.words(),
    {
        match self {
            NumberError::Empty => push_text(out, "cannot parse integer from empty string"),
            NumberError::InvalidDigit => push_text(out, "invalid digit found in string"),
            NumberError::TooLarge => push_text(out, "number too large to fit in target type"),
        }
    }
}

pub open spec fn is_digit(c: char) -> bool {
    '0' <= c <= '9'
}

/// Reads digits behind a number `acc` that was already read; the first character that is no
/// digit or makes the number exceed `max` decides the error.
pub open spec fn digits_after(s: Seq<char>, acc: nat, max: nat) -> Result<nat, NumberError>
    decreases s.len(),
{
    if s.len() == 0 {
        Ok(acc)
    } else if !is_digit(s[0]) {
        Err(NumberError::InvalidDigit)
    } else {
        let next = acc * 10 + (s[0] as nat - 48) as nat;
        if next > max {
            Err(NumberError::TooLarge)
        } else {
            digits_after(s.drop_first(), next, max)
        }
    }
}

/// The number that a text writes: digits, with an optional plus sign in front.
pub open spec fn number(s: Seq<char>, max: nat) -> Result<nat, NumberError> {
    if s.len() == 0 {
        Err(NumberError::Empty)
    } else if s[0] == '+' {
        if s.len() == 1 {
            Err(NumberError::InvalidDigit)
        } else {
            digits_after(s.drop_first(), 0, max)
        }
    } else {
        digits_after(s, 0, max)
    }
}

/// Parses an unsigned number that is at most `max`.
pub fn parse_number(chars: &Vec<char>, max: u64) -> (result: Result<u64, NumberError>)
    ensures
        match number(chars@, max as nat) {
            Ok(n) => result is Ok && result->Ok_0 == n && n <= max,
            Err(e) => result == Err::<u64, NumberError>(e),
        },
{
    if chars.len() == 0 {
        return Err(NumberError::Empty);
    }
    let mut i: usize = 0;
    if chars[0] == '+' {
        if chars.len() == 1 {
            return Err(NumberError::InvalidDigit);
        }
        i = 1;
    }
    let mut acc: u64 = 0;
    proof {
        assert(chars@.skip(0) =~= chars@);
        assert(chars@.skip(1) =~= chars@.drop_first());
    }
    while i < chars.len()
        invariant
            i <= chars@.len(),
            acc <= max,
            number(chars@, max as nat) == digits_after(chars@.skip(i as int), acc as nat, max as nat),
        decreases chars@.len() - i,
    {
        let c = chars[i];
        proof {
            assert(chars@.skip(i as int).drop_first() =~= chars@.skip(i + 1));
        }
        if c < '0' || c > '9' {
            return Err(NumberError::InvalidDigit);
        }
        let d: u64 = (c as u32 - 48) as u64;
        if d > max || acc > max / 10 || acc * 10 > max - d {
            return Err(NumberError::TooLarge);
        }
        acc = acc * 10 + d;
        i += 1;
    }
    Ok(acc)
}

pub proof fn lemma_digit_char(d: nat)
    requires
        d < 10,
    ensures
        is_digit(digit_char(d)),
        digit_char(d) as nat - 48 == d,
{
}

pub proof fn lemma_decimal_digits(n: nat)
    ensures
        decimal(n).len() >= 1,
        forall|i: int| 0 <= i < decimal(n).len() ==> is_digit(#[trigger] decimal(n)[i]),
    decreases n,
{
    lemma_digit_char(n % 10);
    if n >= 10 {
        lemma_decimal_digits(n / 10);
    }
}

/// Reading digits one after the other is reading them all.
pub proof fn lemma_digits_split(a: Seq<char>, b: Seq<char>, acc: nat, max: nat)
    ensures
        digits_after(a + b, acc, max) == (match digits_after(a, acc, max) {
            Ok(n) => digits_after(b, n, max),
            Err(e) => Err(e),
        }),
    decreases a.len(),
{
    if a.len() == 0 {
        assert(a + b =~= b);
    } else {
        assert((a + b).drop_first() =~= a.drop_first() + b);
        if is_digit(a[0]) {
            lemma_digits_split(a.drop_first(), b, acc * 10 + (a[0] as nat - 48) as nat, max);
        }
    }
}

pub proof fn lemma_decimal_value(n: nat, max: nat)
    requires
        n <= max,
    ensures
        digits_after(decimal(n), 0, max) == Ok::<nat, NumberError>(n),
    decreases n,
{
    lemma_digit_char(n % 10);
    reveal_with_fuel(digits_after, 2);
    let last = seq![digit_char(n % 10)];
    assert(last.drop_first() =~= Seq::empty());
    if n >= 10 {
        lemma_decimal_value(n / 10, max);
        assert(decimal(n) =~= decimal(n / 10) + last);
        lemma_digits_split(decimal(n / 10), last, 0, max);
    } else {
        assert(decimal(n) == last);
    }
}

/// A number written in decimal is read back.
pub proof fn law_decimal_round_trip(n: nat, max: nat)
    requires
        n <= max,
    ensures
        number(decimal(n), max) == Ok::<nat, NumberError>(n),
{
    lemma_decimal_digits(n);
    lemma_decimal_value(n, max);
    assert(is_digit(decimal(n)[0]));
}

/// The number that digits write: each place counts ten times the one behind it.
pub open spec fn digits_value(s: Seq<char>) -> nat
    decreases s.len(),
{
    if s.len() == 0 {
        0
    } else {
        (10 * digits_value(s.drop_last()) + (s.last() as nat - 48)) as nat
    }
}

proof fn lemma_digits_after_value(s: Seq<char>, max: nat)
    requires
        forall|i: int| 0 <= i < s.len() ==> '0' <= #[trigger] s[i] <= '9',
    ensures
        digits_after(s, 0, max) == if digits_value(s) <= max {
            Ok::<nat, NumberError>(digits_value(s))
        } else {
            Err(NumberError::TooLarge)
        },
    decreases s.len(),
{
    if s.len() > 0 {
        let p = s.drop_last();
        let last = seq![s.last()];
        assert forall|i: int| 0 <= i < p.len() implies '0' <= #[trigger] p[i] <= '9' by {
            assert(p[i] == s[i]);
        }
        lemma_digits_after_value(p, max);
        assert(s =~= p + last);
        lemma_digits_split(p, last, 0, max);
        reveal_with_fuel(digits_after, 2);
        assert(last.drop_first() =~= Seq::empty());
        assert('0' <= s[s.len() - 1] <= '9');
    }
}

/// A text of digits, with or without a plus sign in front, is read as the number that the
/// digits write, if that is not above the limit; it is too large if it is.
pub proof fn law_number_reads_digits(s: Seq<char>, max: nat)
    requires
        s.len() > 0,
        forall|i: int| 0 <= i < s.len() ==> '0' <= #[trigger] s[i] <= '9',
    ensures
        number(s, max) == if digits_value(s) <= max {
            Ok::<nat, NumberError>(digits_value(s))
        } else {
            Err(NumberError::TooLarge)
        },
        number(seq!['+'] + s, max) == number(s, max),
{
    lemma_digits_after_value(s, max);
    assert('0' <= s[0] <= '9');
    assert((seq!['+'] + s).drop_first() =~= s);
}

/// The text of a number has no place too many, and place `i` from the right holds the digit
/// that counts `10^i`.
pub proof fn law_decimal_places(n: nat, i: nat)
    requires
        i < decimal(n).len(),
    ensures
        n < pow(10, decimal(n).len()),
        decimal(n).len() > 1 ==> pow(10, (decimal(n).len() - 1) as nat) <= n,
        decimal(n)[decimal(n).len() - 1 - i] as int - '0' as int == n as int / pow(10, i) % 10,
    decreases n,
{
    lemma_digit_char(n % 10);
    reveal_with_fuel(pow, 2);
    if n < 10 {
        assert(pow(10, 0) == 1);
        assert(n as int / 1 == n);
    } else {
        let m = n / 10;
        let len = decimal(m).len();
        lemma_decimal_digits(m);
        assert(decimal(n).len() == len + 1);
        law_decimal_places(m, if i > 0 { (i - 1) as nat } else { 0 });
        assert(pow(10, len + 1) == 10 * pow(10, len));
        if len > 1 {
            assert(pow(10, len) == 10 * pow(10, (len - 1) as nat));
        } else {
            assert(pow(10, 1) == 10 * pow(10, 0));
        }
        if i == 0 {
            assert(pow(10, 0) == 1);
            assert(n as int / 1 == n);
        } else {
            let k = (i - 1) as nat;
            assert(pow(10, i) == 10 * pow(10, k));
            vstd::arithmetic::power::lemma_pow_positive(10, k);
            vstd::arithmetic::div_mod::lemma_div_denominator(n as int, 10, pow(10, k));
            assert(decimal(n)[len as int - i] == decimal(m)[len - 1 - k]);
        }
    }
}

/// A text without digits is no number: none at all, a sign alone, or digits of a number within
/// the limit with another character behind them.
pub proof fn law_no_number(s: Seq<char>, c: char, rest: Seq<char>, max: nat)
    requires
        forall|i: int| 0 <= i < s.len() ==> '0' <= #[trigger] s[i] <= '9',
        digits_value(s) <= max,
        !('0' <= c <= '9'),
        s.len() > 0 || c != '+',
    ensures
        number(Seq::empty(), max) == Err::<nat, NumberError>(NumberError::Empty),
        number(seq!['+'], max) == Err::<nat, NumberError>(NumberError::InvalidDigit),
        number(s + seq![c] + rest, max) == Err::<nat, NumberError>(NumberError::InvalidDigit),
{
    lemma_digits_after_value(s, max);
    let behind = seq![c] + rest;
    assert(s + seq![c] + rest =~= s + behind);
    lemma_digits_split(s, behind, 0, max);
    assert(behind[0] == c);
    if s.len() > 0 {
        assert('0' <= s[0] <= '9');
        assert((s + behind)[0] == s[0]);
    }
}

} // verus!
