//! The names of the files that decoding writes to.
//!
//! The name is that of the archive without its ending, with a number behind
//! the first underscore: 1 where there is no underscore yet, else one more
//! than the number that stands between the first underscore and the first
//! dot. Nothing looks whether a file of that name is there already.

use vstd::prelude::*;

verus! {

/// Where `c` stands first in `s`; the length of `s` where it does not.
pub open spec fn first_index(s: Seq<char>, c: char) -> int
    decreases s.len(),
{
    if s.len() == 0 || s[0] == c {
        0
    } else {
        1 + first_index(s.skip(1), c)
    }
}

/// `c` is one of the digits `0` to `9`.
pub open spec fn is_digit(c: char) -> bool {
    '0' <= c && c <= '9'
}

/// The digit that `c` is.
pub open spec fn digit_of(c: char) -> int {
    c as int - '0' as int
}

/// `s` holds digits only.
pub open spec fn all_digits(s: Seq<char>) -> bool {
    forall|i: int| 0 <= i < s.len() ==> is_digit(#[trigger] s[i])
}

/// The number that the digits of `s` spell.
pub open spec fn digits_value(s: Seq<char>) -> int
    decreases s.len(),
{
    if s.len() == 0 {
        0
    } else {
        digits_value(s.drop_last()) * 10 + digit_of(s.last())
    }
}

/// The number that `s` spells: digits, with a sign before them or none, that
/// make a number from -2147483648 to 2147483647. Anything else spells none.
pub open spec fn parse_number(s: Seq<char>) -> Option<int> {
    let digits = if s.len() > 0 && (s[0] == '-' || s[0] == '+') {
        s.skip(1)
    } else {
        s
    };
    let value = if s.len() > 0 && s[0] == '-' {
        -digits_value(digits)
    } else {
        digits_value(digits)
    };
    if digits.len() > 0 && all_digits(digits) && -2147483648 <= value <= 2147483647 {
        Some(value)
    } else {
        None
    }
}

/// The character of the digit `d`.
pub open spec fn digit_char(d: int) -> char {
    if d == 0 {
        '0'
    } else if d == 1 {
        '1'
    } else if d == 2 {
        '2'
    } else if d == 3 {
        '3'
    } else if d == 4 {
        '4'
    } else if d == 5 {
        '5'
    } else if d == 6 {
        '6'
    } else if d == 7 {
        '7'
    } else if d == 8 {
        '8'
    } else {
        '9'
    }
}

/// The digits of `n`, without leading zeros.
pub open spec fn decimal(n: nat) -> Seq<char>
    decreases n,
{
    if n < 10 {
        seq![digit_char(n as int)]
    } else {
        decimal(n / 10).push(digit_char((n % 10) as int))
    }
}

/// How the number `v` is written.
pub open spec fn number_text(v: int) -> Seq<char> {
    if v < 0 {
        seq!['-'] + decimal((-v) as nat)
    } else {
        decimal(v as nat)
    }
}

/// The number that stands behind the first underscore of `filepath`: what
/// the characters between it and the first dot spell, or 0 where they spell
/// none.
pub open spec fn file_index(filepath: Seq<char>) -> int {
    let dot_pos = first_index(filepath, '.');
    let underscore_pos = first_index(filepath, '_');
    match parse_number(filepath.subrange(underscore_pos + 1, dot_pos)) {
        Some(index) => index,
        None => 0,
    }
}

/// The name has a next one: its first underscore, if it has one, stands
/// before its first dot, and the number behind it is not the greatest.
pub open spec fn has_next_name(filepath: Seq<char>) -> bool {
    let dot_pos = first_index(filepath, '.');
    let underscore_pos = first_index(filepath, '_');
    underscore_pos < filepath.len() ==> underscore_pos < dot_pos && file_index(filepath)
        < 2147483647
}

/// The name that follows `filepath`.
pub open spec fn next_name(filepath: Seq<char>) -> Seq<char> {
    let dot_pos = first_index(filepath, '.');
    let underscore_pos = first_index(filepath, '_');
    let ext = filepath.skip(dot_pos);
    if underscore_pos < filepath.len() {
        filepath.take(underscore_pos) + seq!['_'] + number_text(file_index(filepath) + 1) + ext
    } else {
        filepath.take(dot_pos) + seq!['_', '1'] + ext
    }
}

/// Where `c` stands first in `s`, given that it stands at none of the first
/// `at` places and that `s` ends at `at` or has `c` there.
pub proof fn lemma_first_index(s: Seq<char>, c: char, at: int)
    requires
        0 <= at <= s.len(),
        forall|j: int| 0 <= j < at ==> s[j] != c,
        at == s.len() || s[at] == c,
    ensures
        first_index(s, c) == at,
    decreases at,
{
    if at > 0 {
        assert(s[0] != c);
        lemma_first_index(s.skip(1), c, at - 1);
    }
}

/// Where `c` stands first in `s`; the length of `s` where it does not.
pub fn find_char(s: &str, c: char) -> (at: usize)
    ensures
        at == first_index(s@, c),
        at <= s@.len(),
{
    let n = s.unicode_len();
    let mut at: usize = 0;
    while at < n && s.get_char(at) != c
        invariant
            at <= n,
            n == s@.len(),
            forall|j: int| 0 <= j < at ==> s@[j] != c,
        decreases n - at,
    {
        at += 1;
    }
    proof {
        lemma_first_index(s@, c, at as int);
    }
    at
}

/// Digits spell no number below zero.
pub proof fn lemma_digits_value_nonneg(s: Seq<char>)
    requires
        all_digits(s),
    ensures
        digits_value(s) >= 0,
    decreases s.len(),
{
    if s.len() > 0 {
        assert(is_digit(s.last()));
        assert forall|i: int| 0 <= i < s.drop_last().len() implies is_digit(
            #[trigger] s.drop_last()[i],
        ) by {
            assert(s.drop_last()[i] == s[i]);
        }
        lemma_digits_value_nonneg(s.drop_last());
    }
}

/// The number that `s` spells, as `parse_number` says.
pub fn parse_index(s: &str) -> (number: Option<i32>)
    ensures
        match number {
            Some(value) => parse_number(s@) == Some(value as int),
            None => parse_number(s@) is None,
        },
{
    let n = s.unicode_len();
    if n == 0 {
        return None;
    }
    let first = s.get_char(0);
    let negative = first == '-';
    let start: usize = if first == '-' || first == '+' {
        1
    } else {
        0
    };
    if start == n {
        return None;
    }
    let ghost digits = s@.skip(start as int);
    proof {
        assert(s@.skip(0) =~= s@);
    }
    let mut value: i64 = 0;
    let mut too_large = false;
    let mut i = start;
    while i < n
        invariant
            start <= i <= n,
            start < n,
            n == s@.len(),
            negative == (s@[0] == '-'),
            start == (if s@[0] == '-' || s@[0] == '+' {
                1int
            } else {
                0int
            }),
            digits == s@.skip(start as int),
            all_digits(digits.take(i - start)),
            !too_large ==> value == digits_value(digits.take(i - start)) && 0 <= value
                <= 2147483648,
            too_large ==> digits_value(digits.take(i - start)) > 2147483648,
        decreases n - i,
    {
        let c = s.get_char(i);
        proof {
            assert(digits.take(i - start + 1).drop_last() =~= digits.take(i - start));
            assert(digits.take(i - start + 1).last() == c);
            lemma_digits_value_nonneg(digits.take(i - start));
        }
        if !(c >= '0' && c <= '9') {
            proof {
                assert(digits[i - start] == c);
                assert(!all_digits(digits));
                assert(s@.skip(0) =~= s@);
            }
            return None;
        }
        proof {
            assert forall|j: int| 0 <= j < i - start + 1 implies is_digit(
                #[trigger] digits.take(i - start + 1)[j],
            ) by {
                if j < i - start {
                    assert(digits.take(i - start)[j] == digits.take(i - start + 1)[j]);
                }
            }
        }
        if !too_large {
            let digit = (c as u32 - '0' as u32) as i64;
            value = value * 10 + digit;
            if value > 2147483648 {
                too_large = true;
            }
        }
        i += 1;
    }
    proof {
        assert(digits.take(n - start) =~= digits);
        assert(s@.skip(0) =~= s@);
    }
    if too_large {
        return None;
    }
    if negative {
        Some((-value) as i32)
    } else if value > 2147483647 {
        None
    } else {
        Some(value as i32)
    }
}

/// The text of one digit.
fn digit_text(d: u32) -> (text: &'static str)
    requires
        d < 10,
    ensures
        text@ == seq![digit_char(d as int)],
{
    proof {
        reveal_strlit("0");
        reveal_strlit("1");
        reveal_strlit("2");
        reveal_strlit("3");
        reveal_strlit("4");
        reveal_strlit("5");
        reveal_strlit("6");
        reveal_strlit("7");
        reveal_strlit("8");
        reveal_strlit("9");
    }
    let text = if d == 0 {
        "0"
    } else if d == 1 {
        "1"
    } else if d == 2 {
        "2"
    } else if d == 3 {
        "3"
    } else if d == 4 {
        "4"
    } else if d == 5 {
        "5"
    } else if d == 6 {
        "6"
    } else if d == 7 {
        "7"
    } else if d == 8 {
        "8"
    } else {
        "9"
    };
    proof {
        assert(text@ =~= seq![digit_char(d as int)]);
    }
    text
}

/// Appends the digits of `n` to `out`.
fn push_decimal(out: &mut String, n: u32)
    ensures
        final(out)@ == old(out)@ + decimal(n as nat),
    decreases n,
{
    if n >= 10 {
        push_decimal(out, n / 10);
    }
    let ghost before = out@;
    out.append(digit_text(n % 10));
    proof {
        if n >= 10 {
            assert(out@ =~= old(out)@ + decimal((n / 10) as nat).push(
                digit_char((n % 10) as int),
            ));
        }
    }
}

/// The name that follows `filepath`: with the number behind its first
/// underscore raised by one, or with `_1` before its first dot where it has
/// no underscore.
pub fn increment_file_index(filepath: &str) -> (name: String)
    requires
        has_next_name(filepath@),
    ensures
        name@ == next_name(filepath@),
{
    let len = filepath.unicode_len();
    let mut dot_pos = find_char(filepath, '.');
    let ext = filepath.substring_char(dot_pos, len);
    let underscore_pos = find_char(filepath, '_');

    let ind: i32 = if underscore_pos < len {
        let index = match parse_index(filepath.substring_char(underscore_pos + 1, dot_pos)) {
            Some(number) => number,
            None => 0,
        } + 1;
        dot_pos = underscore_pos;
        index
    } else {
        1
    };

    let mut name = String::from_str(filepath.substring_char(0, dot_pos));
    proof {
        reveal_strlit("_");
        reveal_strlit("-");
    }
    name.append("_");
    if ind < 0 {
        name.append("-");
        push_decimal(&mut name, (-(ind as i64)) as u32);
    } else {
        push_decimal(&mut name, ind as u32);
    }
    name.append(ext);
    proof {
        assert(decimal(1) =~= seq!['1']);
        assert(name@ =~= next_name(filepath@));
    }
    name
}

/// Whether `filepath` has a next name.
pub fn can_increment_file_index(filepath: &str) -> (can: bool)
    ensures
        can == has_next_name(filepath@),
{
    let len = filepath.unicode_len();
    let dot_pos = find_char(filepath, '.');
    let underscore_pos = find_char(filepath, '_');
    if underscore_pos < len {
        if underscore_pos >= dot_pos {
            return false;
        }
        match parse_index(filepath.substring_char(underscore_pos + 1, dot_pos)) {
            Some(number) => number < 2147483647,
            None => true,
        }
    } else {
        true
    }
}

} // verus!
