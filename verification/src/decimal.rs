//! Unsigned decimal numbers.

use crate::text::chars_of;
use vstd::prelude::*;

verus! {

/// Why a text is not a number.
#[derive(Debug, Clone, Copy, PartialEq, Eq, Structural)]
pub enum NumberError {
    /// There is no text.
    Empty,
    /// There is no digit, or a character that is none.
    InvalidDigit,
    /// The number is larger than the largest one allowed.
    TooLarge,
}

pub open spec fn is_digit(c: char) -> bool {
    '0' <= c <= '9'
}

pub open spec fn digit_value(c: char) -> nat {
    (c as int - '0' as int) as nat
}

/// How many digits `s` begins with.
pub open spec fn digit_run(s: Seq<char>) -> nat
    decreases s.len(),
{
    if s.len() == 0 || !is_digit(s[0]) {
        0
    } else {
        1 + digit_run(s.drop_first())
    }
}

/// The number that a row of digits writes.
pub open spec fn value(s: Seq<char>) -> nat
    decreases s.len(),
{
    if s.len() == 0 {
        0
    } else {
        10 * value(s.drop_last()) + digit_value(s.last())
    }
}

/// `s` without a plus sign in front.
pub open spec fn unsigned(s: Seq<char>) -> Seq<char> {
    if s.len() > 0 && s[0] == '+' {
        s.skip(1)
    } else {
        s
    }
}

/// The number that `s` writes: digits alone, with or without a plus sign in front, and
/// no more than `max`.
pub open spec fn number(s: Seq<char>, max: nat) -> Result<nat, NumberError> {
    let digits = unsigned(s);
    let run = digit_run(digits);
    if s.len() == 0 {
        Err(NumberError::Empty)
    } else if digits.len() == 0 {
        Err(NumberError::InvalidDigit)
    } else if value(digits.take(run as int)) > max {
        Err(NumberError::TooLarge)
    } else if run < digits.len() {
        Err(NumberError::InvalidDigit)
    } else {
        Ok(value(digits))
    }
}

/// The character of the digit `d`.
pub open spec fn digit_char(d: nat) -> char {
    ('0' as int + d) as char
}

/// `n` written in decimal, without leading zeros.
pub open spec fn numeral(n: nat) -> Seq<char>
    decreases n,
{
    if n < 10 {
        seq![digit_char(n)]
    } else {
        numeral(n / 10).push(digit_char(n % 10))
    }
}

proof fn lemma_digit_run(s: Seq<char>)
    ensures
        digit_run(s) <= s.len(),
        forall|j: int| 0 <= j < digit_run(s) ==> is_digit(s[j]),
        digit_run(s) < s.len() ==> !is_digit(s[digit_run(s) as int]),
    decreases s.len(),
{
    if s.len() > 0 && is_digit(s[0]) {
        let tail = s.drop_first();
        lemma_digit_run(tail);
        assert forall|j: int| 0 <= j < digit_run(s) implies is_digit(s[j]) by {
            if j > 0 {
                assert(tail[j - 1] == s[j]);
            }
        }
    }
}

proof fn lemma_digit_run_unique(s: Seq<char>, n: nat)
    requires
        n <= s.len(),
        forall|j: int| 0 <= j < n ==> is_digit(s[j]),
        n < s.len() ==> !is_digit(s[n as int]),
    ensures
        digit_run(s) == n,
{
    lemma_digit_run(s);
}

proof fn lemma_value_grows(s: Seq<char>, k: int, m: int)
    requires
        0 <= k <= m <= s.len(),
    ensures
        value(s.take(k)) <= value(s.take(m)),
    decreases m - k,
{
    if k < m {
        lemma_value_grows(s, k, m - 1);
        assert(s.take(m).drop_last() == s.take(m - 1));
    }
}

/// Reads `s` as a number of at most `max`.
pub(crate) fn read_number(s: &str, max: u64) -> (r: Result<u64, NumberError>)
    requires
        max >= 9,
    ensures
        match r {
            Ok(n) => n <= max && number(s@, max as nat) == Ok::<nat, NumberError>(n as nat),
            Err(e) => number(s@, max as nat) == Err::<nat, NumberError>(e),
        },
{
    let v: Vec<char> = chars_of(s);
    if v.len() == 0 {
        return Err(NumberError::Empty);
    }
    let start: usize = if v[0] == '+' {
        1
    } else {
        0
    };
    let ghost digits = unsigned(s@);
    assert(digits == v@.skip(start as int));
    if v.len() == start {
        return Err(NumberError::InvalidDigit);
    }
    let mut n: u64 = 0;
    let mut k: usize = start;
    while k < v.len()
        invariant
            v@ == s@,
            max >= 9,
            start <= k <= v.len(),
            start < v.len(),
            digits == unsigned(s@),
            digits == v@.skip(start as int),
            forall|j: int| 0 <= j < k - start ==> is_digit(digits[j]),
            n == value(digits.take(k - start)),
            n <= max,
        decreases v.len() - k,
    {
        let c: char = v[k];
        assert(c == digits[k - start]);
        if !('0' <= c && c <= '9') {
            proof {
                lemma_digit_run_unique(digits, (k - start) as nat);
            }
            return Err(NumberError::InvalidDigit);
        }
        let d: u64 = c as u64 - '0' as u64;
        assert(digits.take(k - start + 1).drop_last() == digits.take(k - start));
        assert(value(digits.take(k - start + 1)) == 10 * n + d);
        if n > (max - d) / 10 {
            proof {
                lemma_digit_run(digits);
                assert(digit_run(digits) >= k - start + 1);
                lemma_value_grows(digits, k - start + 1, digit_run(digits) as int);
            }
            return Err(NumberError::TooLarge);
        }
        n = n * 10 + d;
        k = k + 1;
    }
    proof {
        lemma_digit_run_unique(digits, digits.len());
        assert(digits.take(digits.len() as int) == digits);
    }
    Ok(n)
}

/// A numeral is a row of digits that writes its number.
pub proof fn lemma_numeral(n: nat)
    ensures
        numeral(n).len() > 0,
        forall|j: int| 0 <= j < numeral(n).len() ==> is_digit(numeral(n)[j]),
        value(numeral(n)) == n,
    decreases n,
{
    if n < 10 {
        assert(numeral(n).drop_last() == Seq::<char>::empty());
        assert(value(Seq::<char>::empty()) == 0);
    } else {
        lemma_numeral(n / 10);
        assert(numeral(n).drop_last() == numeral(n / 10));
    }
}

/// Reading back a written number gives that number.
pub proof fn law_numeral_round_trip(n: nat, max: nat)
    requires
        n <= max,
    ensures
        number(numeral(n), max) == Ok::<nat, NumberError>(n),
{
    let s = numeral(n);
    lemma_numeral(n);
    assert(is_digit(s[0]));
    lemma_digit_run_unique(s, s.len());
    assert(s.take(s.len() as int) == s);
}

/// `n` written in decimal, after `zeros` zeros.
pub open spec fn row_of_digits(zeros: nat, n: nat) -> Seq<char> {
    Seq::new(zeros, |i: int| '0') + numeral(n)
}

/// `s` with or without a plus sign in front.
pub open spec fn signed(plus: bool, s: Seq<char>) -> Seq<char> {
    if plus {
        seq!['+'] + s
    } else {
        s
    }
}

proof fn lemma_value_of_zeros_and(zeros: nat, s: Seq<char>)
    ensures
        value(Seq::new(zeros, |i: int| '0') + s) == value(s),
    decreases zeros + s.len(),
{
    let front = Seq::new(zeros, |i: int| '0');
    let all = front + s;
    if s.len() > 0 {
        lemma_value_of_zeros_and(zeros, s.drop_last());
        assert(all.drop_last() == front + s.drop_last());
    } else if zeros > 0 {
        let fewer = (zeros - 1) as nat;
        lemma_value_of_zeros_and(fewer, s);
        assert(all.drop_last() == Seq::new(fewer, |i: int| '0') + s);
    } else {
        assert(all == s);
    }
}

/// Such a row is made of digits, one at least, and writes `n`.
pub proof fn lemma_row_of_digits(zeros: nat, n: nat)
    ensures
        row_of_digits(zeros, n).len() > 0,
        forall|j: int| 0 <= j < row_of_digits(zeros, n).len() ==> is_digit(
            #[trigger] row_of_digits(zeros, n)[j],
        ),
        value(row_of_digits(zeros, n)) == n,
{
    lemma_numeral(n);
    lemma_value_of_zeros_and(zeros, numeral(n));
}

/// Digits are read as the number that they write, with any number of zeros in front, with or
/// without a plus sign before them, and refused when that number is beyond the bound.
pub proof fn law_digits_are_read(plus: bool, zeros: nat, n: nat, max: nat)
    ensures
        number(signed(plus, row_of_digits(zeros, n)), max) == (if n <= max {
            Ok::<nat, NumberError>(n)
        } else {
            Err::<nat, NumberError>(NumberError::TooLarge)
        }),
{
    let d = row_of_digits(zeros, n);
    lemma_row_of_digits(zeros, n);
    assert(is_digit(d[0]));
    assert(unsigned(signed(plus, d)) == d) by {
        if plus {
            assert(signed(plus, d).skip(1) == d);
        }
    }
    lemma_digit_run_unique(d, d.len());
    assert(d.take(d.len() as int) == d);
}

/// There is no other row of digits than a number written in decimal, after some zeros.
pub proof fn law_every_row_of_digits_is_a_number(d: Seq<char>)
    requires
        d.len() > 0,
        forall|j: int| 0 <= j < d.len() ==> '0' <= #[trigger] d[j] <= '9',
    ensures
        exists|zeros: nat, n: nat| d == #[trigger] row_of_digits(zeros, n),
    decreases d.len(),
{
    let c = d.last();
    let low = digit_value(c);
    assert('0' <= d[d.len() - 1] <= '9');
    assert(digit_char(low) == c);
    if d.len() == 1 {
        assert(d == row_of_digits(0, low));
    } else {
        let front = d.drop_last();
        assert forall|j: int| 0 <= j < front.len() implies '0' <= #[trigger] front[j] <= '9' by {
            assert(front[j] == d[j]);
        }
        law_every_row_of_digits_is_a_number(front);
        let (zeros, n): (nat, nat) = choose|zeros: nat, n: nat|
            front == #[trigger] row_of_digits(zeros, n);
        assert(d == front.push(c));
        if n == 0 {
            assert(numeral(n) == seq!['0']);
            assert(numeral(low) == seq![c]);
            assert(d == row_of_digits(zeros + 1, low));
        } else {
            let m = 10 * n + low;
            assert(m / 10 == n && m % 10 == low);
            assert(numeral(m) == numeral(n).push(c));
            assert(d == (Seq::new(zeros, |i: int| '0') + numeral(n)).push(c));
            assert(d == row_of_digits(zeros, m));
        }
    }
}

/// A text with a character other than a digit in it is refused: as too large when the digits
/// before that character are, and else for the character.
pub proof fn law_other_characters_are_refused(
    plus: bool,
    zeros: nat,
    n: nat,
    c: char,
    rest: Seq<char>,
    max: nat,
)
    requires
        c < '0' || '9' < c,
    ensures
        number(signed(plus, row_of_digits(zeros, n).push(c) + rest), max) == Err::<
            nat,
            NumberError,
        >(
            if n <= max {
                NumberError::InvalidDigit
            } else {
                NumberError::TooLarge
            },
        ),
        plus || c != '+' ==> number(signed(plus, seq![c] + rest), max) == Err::<
            nat,
            NumberError,
        >(NumberError::InvalidDigit),
{
    let d = row_of_digits(zeros, n);
    let s = d.push(c) + rest;
    lemma_row_of_digits(zeros, n);
    assert(is_digit(d[0]) && s[0] == d[0]);
    assert(unsigned(signed(plus, s)) == s) by {
        if plus {
            assert(signed(plus, s).skip(1) == s);
        }
    }
    assert forall|j: int| 0 <= j < d.len() implies is_digit(s[j]) by {
        assert(s[j] == d[j]);
    }
    lemma_digit_run_unique(s, d.len());
    assert(s.take(d.len() as int) == d);
    if plus || c != '+' {
        let u = seq![c] + rest;
        assert(unsigned(signed(plus, u)) == u) by {
            if plus {
                assert(signed(plus, u).skip(1) == u);
            }
        }
        lemma_digit_run_unique(u, 0);
        assert(u.take(0) == Seq::<char>::empty());
        assert(value(Seq::<char>::empty()) == 0);
    }
}

/// A text without a digit is refused: as empty when there is nothing at all.
pub proof fn law_no_digits_are_refused(max: nat)
    ensures
        number(Seq::empty(), max) == Err::<nat, NumberError>(NumberError::Empty),
        number(seq!['+'], max) == Err::<nat, NumberError>(NumberError::InvalidDigit),
{
    assert(seq!['+'].skip(1) == Seq::<char>::empty());
}

/// What is read as a number is one digit or more, and a plus sign at most.
pub proof fn law_numbers_are_digits(s: Seq<char>, max: nat)
    ensures
        number(s, max) is Ok ==> exists|plus: bool, zeros: nat|
            s == #[trigger] signed(plus, row_of_digits(zeros, number(s, max)->Ok_0)),
        number(s, max) matches Ok(n) ==> n <= max,
{
    if let Ok(n) = number(s, max) {
        let d = unsigned(s);
        let plus = s[0] == '+';
        lemma_digit_run(d);
        assert(d.take(d.len() as int) == d);
        assert forall|j: int| 0 <= j < d.len() implies '0' <= #[trigger] d[j] <= '9' by {
            assert(is_digit(d[j]));
        }
        law_every_row_of_digits_is_a_number(d);
        let (zeros, m): (nat, nat) = choose|zeros: nat, m: nat|
            d == #[trigger] row_of_digits(zeros, m);
        lemma_row_of_digits(zeros, m);
        assert(m == n);
        if plus {
            assert(s == seq!['+'] + d);
        }
        assert(s == signed(plus, row_of_digits(zeros, n)));
    }
}

} // verus!
