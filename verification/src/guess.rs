//! The number-guessing game: reading the guess, and judging it.

use crate::text::{chars_of, string_from_chars};
use vstd::prelude::*;
use vstd::string::StrSliceExecFns;

verus! {

/// The decimal digit for `d`.
pub open spec fn digit(d: int) -> char {
    (('0' as u32) + d) as char
}

/// The decimal digits of `n`, without leading zeros (`0` for zero).
pub open spec fn digits(n: nat) -> Seq<char>
    decreases n,
{
    if n < 10 {
        seq![digit(n as int)]
    } else {
        digits(n / 10).push(digit((n % 10) as int))
    }
}

/// The decimal form of `n`, with `-` before a negative number.
pub open spec fn decimal(n: int) -> Seq<char> {
    if n < 0 {
        seq!['-'] + digits((-n) as nat)
    } else {
        digits(n as nat)
    }
}

/// The characters `\r` and `\n` that end a line.
pub open spec fn is_line_end(c: char) -> bool {
    c == '\r' || c == '\n'
}

/// The number of line-end characters at the end of `s`.
pub open spec fn trailing_line_ends(s: Seq<char>) -> nat
    decreases s.len(),
{
    if s.len() > 0 && is_line_end(s.last()) {
        1 + trailing_line_ends(s.drop_last())
    } else {
        0
    }
}

/// `s` without the line-end characters at its end.
pub open spec fn without_line_end(s: Seq<char>) -> Seq<char> {
    s.take(s.len() - trailing_line_ends(s))
}

proof fn lemma_trailing_line_ends(s: Seq<char>, k: int)
    requires
        0 <= k <= s.len(),
        forall|j: int| s.len() - k <= j < s.len() ==> is_line_end(#[trigger] s[j]),
    ensures
        trailing_line_ends(s) == k + trailing_line_ends(s.take(s.len() - k)),
    decreases k,
{
    if k > 0 {
        assert(s.drop_last().take(s.drop_last().len() - (k - 1)) =~= s.take(s.len() - k));
        lemma_trailing_line_ends(s.drop_last(), k - 1);
    } else {
        assert(s.take(s.len() as int) =~= s);
    }
}

/// The line as typed: `line` without the `\r` and `\n` characters at its end.
pub fn trim_line_end(line: &str) -> (r: &str)
    ensures
        r@ == without_line_end(line@),
{
    let cs = chars_of(line);
    let mut end = cs.len();
    while end > 0 && (cs[end - 1] == '\r' || cs[end - 1] == '\n')
        invariant
            cs@ == line@,
            end <= cs.len(),
            forall|j: int| end <= j < cs.len() ==> is_line_end(#[trigger] cs@[j]),
        decreases end,
    {
        end = end - 1;
    }
    proof {
        lemma_trailing_line_ends(cs@, cs.len() - end);
        if end > 0 {
            assert(cs@.take(end as int).last() == cs@[end - 1]);
        }
        assert(trailing_line_ends(cs@.take(end as int)) == 0);
    }
    line.substring_char(0, end)
}

/// The decimal digits of `n`.
fn digits_of(n: u64) -> (s: Vec<char>)
    ensures
        s@ == digits(n as nat),
    decreases n,
{
    if n < 10 {
        let mut v: Vec<char> = Vec::new();
        v.push(((('0' as u32) + (n as u32)) as u8) as char);
        assert(v@ =~= digits(n as nat));
        v
    } else {
        let mut v = digits_of(n / 10);
        let d = (n % 10) as u32;
        v.push(((('0' as u32) + d) as u8) as char);
        v
    }
}

/// The decimal form of `n`, as `i32`'s `to_string` writes it.
pub fn decimal_string(n: i32) -> (s: String)
    ensures
        s@ == decimal(n as int),
{
    if n < 0 {
        let m: u64 = (-(n as i64)) as u64;
        let d = digits_of(m);
        let mut v: Vec<char> = Vec::new();
        v.push('-');
        for i in 0..d.len()
            invariant
                v@ == seq!['-'] + d@.take(i as int),
        {
            v.push(d[i]);
            assert(d@.take(i + 1) =~= d@.take(i as int).push(d@[i as int]));
            assert(v@ =~= seq!['-'] + d@.take(i + 1));
        }
        assert(d@.take(d.len() as int) =~= d@);
        string_from_chars(&v)
    } else {
        string_from_chars(&digits_of(n as u64))
    }
}

/// Whether the guess is the number: the typed line, without its line end, is exactly
/// the number's decimal form.
pub fn is_correct_guess(line: &str, num: i32) -> (correct: bool)
    ensures
        correct == (without_line_end(line@) == decimal(num as int)),
{
    let typed = trim_line_end(line);
    let expected = decimal_string(num);
    crate::text::same_chars(typed, expected.as_str())
}

/// Every character of a number's digits is a decimal digit, and there is at least one.
pub proof fn lemma_digits_are_digits(n: nat)
    ensures
        digits(n).len() >= 1,
        forall|j: int| 0 <= j < digits(n).len() ==> '0' <= #[trigger] digits(n)[j] <= '9',
        n >= 10 ==> digits(n).len() >= 2,
    decreases n,
{
    if n >= 10 {
        lemma_digits_are_digits(n / 10);
    }
}

/// Different numbers have different digits.
pub proof fn lemma_digits_injective(n: nat, m: nat)
    requires
        digits(n) == digits(m),
    ensures
        n == m,
    decreases n,
{
    lemma_digits_are_digits(n);
    lemma_digits_are_digits(m);
    if n >= 10 && m >= 10 {
        assert(digits(n).drop_last() == digits(n / 10));
        assert(digits(m).drop_last() == digits(m / 10));
        lemma_digits_injective(n / 10, m / 10);
        assert(digits(n).last() == digit((n % 10) as int));
        assert(digits(m).last() == digit((m % 10) as int));
        assert((digit((n % 10) as int) as u32) == 48 + n % 10);
        assert((digit((m % 10) as int) as u32) == 48 + m % 10);
    } else if n < 10 && m < 10 {
        assert(digits(n)[0] == digit(n as int));
        assert(digits(m)[0] == digit(m as int));
        assert((digit(n as int) as u32) == 48 + n);
        assert((digit(m as int) as u32) == 48 + m);
    }
}

/// Only the number itself is a correct guess: two numbers with the same decimal form
/// are equal.
pub proof fn lemma_only_the_number_wins(n: int, m: int)
    requires
        decimal(n) == decimal(m),
    ensures
        n == m,
{
    if n < 0 {
        lemma_digits_are_digits((-n) as nat);
    } else {
        lemma_digits_are_digits(n as nat);
    }
    if m < 0 {
        lemma_digits_are_digits((-m) as nat);
    } else {
        lemma_digits_are_digits(m as nat);
    }
    if n < 0 && m < 0 {
        assert(decimal(n).drop_first() =~= digits((-n) as nat));
        assert(decimal(m).drop_first() =~= digits((-m) as nat));
        lemma_digits_injective((-n) as nat, (-m) as nat);
    } else if n < 0 {
        assert(decimal(n)[0] == '-');
        assert('0' <= decimal(m)[0] <= '9');
    } else if m < 0 {
        assert(decimal(m)[0] == '-');
        assert('0' <= decimal(n)[0] <= '9');
    } else {
        lemma_digits_injective(n as nat, m as nat);
    }
}

/// Typing the number and pressing return is a correct guess.
pub proof fn lemma_the_number_wins(n: int, line_end: Seq<char>)
    requires
        forall|j: int| 0 <= j < line_end.len() ==> is_line_end(#[trigger] line_end[j]),
    ensures
        without_line_end(decimal(n) + line_end) == decimal(n),
{
    let d = decimal(n);
    let s = d + line_end;
    if n < 0 {
        lemma_digits_are_digits((-n) as nat);
    } else {
        lemma_digits_are_digits(n as nat);
    }
    assert forall|j: int| s.len() - line_end.len() <= j < s.len() implies is_line_end(#[trigger] s[j]) by {
        assert(s[j] == line_end[j - d.len()]);
    }
    lemma_trailing_line_ends(s, line_end.len() as int);
    assert(s.take(s.len() - line_end.len()) =~= d);
    assert(!is_line_end(d.last()));
    assert(trailing_line_ends(d) == 0);
}

/// The number that a string of decimal digits stands for, read left to right.
pub open spec fn digits_value(s: Seq<char>) -> int
    decreases s.len(),
{
    if s.len() == 0 {
        0
    } else {
        digits_value(s.drop_last()) * 10 + ((s.last() as u32) - ('0' as u32))
    }
}

/// The decimal digits of a number read back as that number, and the first of them is
/// not `0` unless the number is zero.
pub proof fn lemma_digits_read_back(n: nat)
    ensures
        digits_value(digits(n)) == n,
        n > 0 ==> digits(n)[0] != '0',
    decreases n,
{
    if n >= 10 {
        lemma_digits_read_back(n / 10);
        let d = digits(n);
        assert(d.drop_last() == digits(n / 10));
        assert(((n % 10) as u32) < 10);
        assert((digit((n % 10) as int) as u32) == ('0' as u32) + (n % 10));
        assert((n / 10) * 10 + n % 10 == n) by (nonlinear_arith);
        assert(d.last() == digit((n % 10) as int));
        assert(digits_value(d) == digits_value(digits(n / 10)) * 10 + (n % 10));
        assert(d[0] == digits(n / 10)[0]);
    } else {
        let d = digits(n);
        assert(d.drop_last() =~= Seq::<char>::empty());
        assert(d.last() == digit(n as int));
        assert((digit(n as int) as u32) == ('0' as u32) + n);
        assert(digits_value(d) == digits_value(d.drop_last()) * 10 + ((d.last() as u32) - ('0' as u32)));
    }
}

/// The decimal form of a number reads back as the number: its digits for a number
/// that is not negative, and `-` then the digits of its magnitude for a negative one.
pub proof fn lemma_decimal_read_back(n: int)
    ensures
        n >= 0 ==> digits_value(decimal(n)) == n,
        n < 0 ==> decimal(n)[0] == '-' && digits_value(decimal(n).drop_first()) == -n,
{
    if n < 0 {
        lemma_digits_read_back((-n) as nat);
        assert(decimal(n).drop_first() =~= digits((-n) as nat));
    } else {
        lemma_digits_read_back(n as nat);
    }
}

} // verus!
