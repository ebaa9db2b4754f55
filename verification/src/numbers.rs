//! Integers in decimal notation: writing them and reading them back.

use vstd::prelude::*;
use crate::chars;
use crate::strings;

verus! {

/// The character of a decimal digit.
pub open spec fn digit(d: int) -> char {
    (('0' as u32 + d) as u32) as char
}

/// The decimal digits of `n`, without leading zeros.
pub open spec fn digits(n: nat) -> Seq<char>
    decreases n,
{
    if n < 10 {
        seq![digit(n as int)]
    } else {
        digits(n / 10).push(digit((n % 10) as int))
    }
}

/// An integer in decimal notation, with a minus sign where it is negative.
pub open spec fn decimal(i: int) -> Seq<char> {
    if i < 0 {
        seq!['-'] + digits((-i) as nat)
    } else {
        digits(i as nat)
    }
}

/// Whether `s` is made of one or more ASCII digits.
pub open spec fn is_number(s: Seq<char>) -> bool {
    s.len() > 0 && forall|i: int| 0 <= i < s.len() ==> chars::ascii_digit(#[trigger] s[i])
}

/// The number that a sequence of digits denotes.
pub open spec fn number(s: Seq<char>) -> nat
    decreases s.len(),
{
    if s.len() == 0 {
        0
    } else {
        number(s.drop_last()) * 10 + (s.last() as nat - '0' as nat) as nat
    }
}

/// The integer that `s` denotes: digits behind at most one sign. A minus sign is read only where
/// `signed` holds.
pub open spec fn read_integer(s: Seq<char>, signed: bool) -> Option<int> {
    if is_number(s) {
        Some(number(s) as int)
    } else if s.len() > 0 && s[0] == '+' && is_number(s.skip(1)) {
        Some(number(s.skip(1)) as int)
    } else if signed && s.len() > 0 && s[0] == '-' && is_number(s.skip(1)) {
        Some(-(number(s.skip(1)) as int))
    } else {
        None
    }
}

/// The integer that `s` denotes, where it lies from `low` to `high`.
pub open spec fn read_in_range(s: Seq<char>, signed: bool, low: int, high: int) -> Option<int> {
    match read_integer(s, signed) {
        Some(i) => if low <= i <= high {
            Some(i)
        } else {
            None
        },
        None => None,
    }
}

/// Appends the digits of a number.
pub fn push_digits(s: &mut String, n: u64)
    ensures
        final(s)@ == old(s)@ + digits(n as nat),
    decreases n,
{
    if n >= 10 {
        push_digits(s, n / 10);
    }
    let ghost before = s@;
    let d: u8 = (n % 10) as u8;
    s.push((48u8 + d) as char);
    assert(s@ =~= old(s)@ + digits(n as nat));
}

/// Appends an integer in decimal notation.
pub fn push_decimal(s: &mut String, i: i64)
    ensures
        final(s)@ == old(s)@ + decimal(i as int),
{
    if i < 0 {
        s.push('-');
        let magnitude: i128 = -(i as i128);
        push_digits(s, magnitude as u64);
        assert(s@ =~= old(s)@ + decimal(i as int));
    } else {
        push_digits(s, i as u64);
    }
}

/// `prefix` followed by the digits of a number.
pub fn numbered(prefix: &str, n: u64) -> (res: String)
    ensures
        res@ == prefix@ + digits(n as nat),
{
    let mut res = strings::copy(prefix);
    push_digits(&mut res, n);
    res
}

proof fn lemma_number_grows(s: Seq<char>, k: int)
    requires
        0 <= k <= s.len(),
        forall|i: int| 0 <= i < s.len() ==> chars::ascii_digit(#[trigger] s[i]),
    ensures
        number(s.take(k)) <= number(s),
    decreases s.len(),
{
    if k == s.len() {
        assert(s.take(k) =~= s);
    } else {
        let front = s.drop_last();
        assert(front.take(k) =~= s.take(k));
        lemma_number_grows(front, k);
    }
}

/// Reads the digits from position `from` on, where they denote a number up to `high`.
fn read_digits(chars: &Vec<char>, from: usize, high: u64) -> (res: Option<u64>)
    requires
        from <= chars.len(),
    ensures
        match res {
            Some(n) => is_number(chars@.skip(from as int)) && n == number(chars@.skip(from as int))
                && n <= high,
            None => !(is_number(chars@.skip(from as int)) && number(chars@.skip(from as int))
                <= high),
        },
{
    let ghost tail = chars@.skip(from as int);
    if from == chars.len() {
        return None;
    }
    let mut value: u128 = 0;
    for i in from..chars.len()
        invariant
            from < chars.len(),
            tail == chars@.skip(from as int),
            value == number(tail.take(i - from)),
            value <= high,
            forall|k: int| 0 <= k < i - from ==> chars::ascii_digit(#[trigger] tail[k]),
    {
        let c: char = chars[i];
        assert(tail[i - from] == c);
        if !('0' <= c && c <= '9') {
            return None;
        }
        let d: u32 = (c as u32) - 48;
        assert(tail.take(i - from + 1).drop_last() =~= tail.take(i - from));
        value = value * 10 + d as u128;
        assert(value == number(tail.take(i - from + 1)));
        if value > high as u128 {
            proof {
                if is_number(tail) {
                    lemma_number_grows(tail, i - from + 1);
                }
            }
            return None;
        }
    }
    assert(tail.take(tail.len() as int) =~= tail);
    Some(value as u64)
}

/// Reads an integer without a minus sign, up to `high`: `str::parse` of an unsigned type whose
/// greatest value is `high`.
pub fn parse_unsigned(text: &str, high: u64) -> (res: Option<u64>)
    ensures
        match res {
            Some(n) => read_in_range(text@, false, 0, high as int) == Some(n as int),
            None => read_in_range(text@, false, 0, high as int) is None,
        },
{
    let chars = strings::to_chars(text);
    let start: usize = if chars.len() > 0 && chars[0] == '+' {
        1
    } else {
        0
    };
    assert(chars@.skip(0) =~= chars@);
    read_digits(&chars, start, high)
}

/// Reads an `i64`: digits behind at most one sign, within its range.
pub fn parse_i64(text: &str) -> (res: Option<i64>)
    ensures
        match res {
            Some(n) => read_in_range(text@, true, i64::MIN as int, i64::MAX as int) == Some(
                n as int,
            ),
            None => read_in_range(text@, true, i64::MIN as int, i64::MAX as int) is None,
        },
{
    let chars = strings::to_chars(text);
    assert(chars@.skip(0) =~= chars@);
    if chars.len() > 0 && chars[0] == '-' {
        match read_digits(&chars, 1, 0x8000_0000_0000_0000) {
            Some(n) => {
                let value: i128 = -(n as i128);
                Some(value as i64)
            },
            None => None,
        }
    } else {
        let start: usize = if chars.len() > 0 && chars[0] == '+' {
            1
        } else {
            0
        };
        match read_digits(&chars, start, 0x7fff_ffff_ffff_ffff) {
            Some(n) => Some(n as i64),
            None => None,
        }
    }
}

proof fn lemma_digits(n: nat)
    ensures
        is_number(digits(n)),
        number(digits(n)) == n,
    decreases n,
{
    reveal_with_fuel(number, 2);
    if n < 10 {
        assert(digits(n).drop_last() =~= Seq::<char>::empty());
    } else {
        lemma_digits(n / 10);
        assert(digits(n).drop_last() =~= digits(n / 10));
    }
}

/// Reading gives back what writing wrote, for every integer of the range.
pub proof fn law_read_of_decimal(i: int, low: int, high: int)
    requires
        low <= i <= high,
    ensures
        read_in_range(decimal(i), true, low, high) == Some(i),
{
    if i < 0 {
        lemma_digits((-i) as nat);
        assert(decimal(i).skip(1) =~= digits((-i) as nat));
        assert(!chars::ascii_digit(decimal(i)[0]));
    } else {
        lemma_digits(i as nat);
    }
}

/// What is wrong with digits that should continue a number of 64 bits, if anything is: the first
/// character that is no digit, or the first digit with which the number no longer fits.
pub open spec fn digits_fault(s: Seq<char>, so_far: int, negative: bool) -> Option<Seq<char>>
    decreases s.len(),
{
    if s.len() == 0 {
        None
    } else if !chars::ascii_digit(s[0]) {
        Some("invalid digit found in string"@)
    } else {
        let d = s[0] as int - '0' as int;
        let next = if negative {
            so_far * 10 - d
        } else {
            so_far * 10 + d
        };
        if next > i64::MAX {
            Some("number too large to fit in target type"@)
        } else if next < i64::MIN {
            Some("number too small to fit in target type"@)
        } else {
            digits_fault(s.skip(1), next, negative)
        }
    }
}

/// What is wrong with a text that should be a number of 64 bits, if anything is.
pub open spec fn i64_fault(s: Seq<char>) -> Option<Seq<char>> {
    if s.len() == 0 {
        Some("cannot parse integer from empty string"@)
    } else if s[0] == '+' || s[0] == '-' {
        if s.len() == 1 {
            Some("invalid digit found in string"@)
        } else {
            digits_fault(s.skip(1), 0, s[0] == '-')
        }
    } else {
        digits_fault(s, 0, false)
    }
}

/// Says what is wrong with a text that should be a number of 64 bits.
pub fn parse_fault(text: &str) -> (res: Option<&'static str>)
    ensures
        match (i64_fault(text@), res) {
            (Some(fault), Some(said)) => said@ == fault,
            (None, None) => true,
            _ => false,
        },
{
    let chars = strings::to_chars(text);
    let n: usize = chars.len();
    if n == 0 {
        return Some("cannot parse integer from empty string");
    }
    let negative = chars[0] == '-';
    let mut i: usize = if negative || chars[0] == '+' {
        1
    } else {
        0
    };
    if i == n {
        return Some("invalid digit found in string");
    }
    assert(chars@.skip(0) =~= chars@);
    let mut so_far: i128 = 0;
    while i < n
        invariant
            n == chars@.len(),
            chars@ == text@,
            i <= n,
            i64::MIN <= so_far <= i64::MAX,
            i64_fault(text@) == digits_fault(chars@.skip(i as int), so_far as int, negative),
        decreases n - i,
    {
        let c = chars[i];
        assert(chars@.skip(i as int)[0] == c);
        assert(chars@.skip(i as int).skip(1) =~= chars@.skip(i + 1));
        if !(c >= '0' && c <= '9') {
            return Some("invalid digit found in string");
        }
        let d: i128 = (c as u32 - '0' as u32) as i128;
        so_far = if negative {
            so_far * 10 - d
        } else {
            so_far * 10 + d
        };
        if so_far > i64::MAX as i128 {
            return Some("number too large to fit in target type");
        }
        if so_far < i64::MIN as i128 {
            return Some("number too small to fit in target type");
        }
        i = i + 1;
    }
    None
}

/// Only whole numbers in decimal digits are read: a text of one or more digits, with a plus sign
/// before them or, where signs are read, a minus sign. Each digit counts ten times the one behind
/// it.
pub proof fn law_only_numbers_are_read(s: Seq<char>, signed: bool, low: int, high: int, d: char)
    ensures
        read_in_range(s, signed, low, high) matches Some(i) ==> {
            &&& low <= i <= high
            &&& s.len() > 0
            &&& forall|k: int| 0 < k < s.len() ==> chars::ascii_digit(#[trigger] s[k])
            &&& chars::ascii_digit(s[0]) || s.len() > 1 && (s[0] == '+' || signed && s[0] == '-')
            &&& s[0] != '-' ==> i >= 0
            &&& s[0] == '-' ==> i <= 0
        },
        is_number(s) && chars::ascii_digit(d) ==> number(s.push(d)) == 10 * number(s) + (d as u32
            - '0' as u32),
        chars::ascii_digit(d) ==> number(seq![d]) == d as u32 - '0' as u32,
{
    assert(s.push(d).drop_last() =~= s);
    assert(seq![d].drop_last() =~= Seq::<char>::empty());
    reveal_with_fuel(number, 2);
    if read_in_range(s, signed, low, high) is Some && !is_number(s) {
        let rest = s.skip(1);
        assert forall|k: int| 0 < k < s.len() implies chars::ascii_digit(#[trigger] s[k]) by {
            assert(rest[k - 1] == s[k]);
        }
    }
}

} // verus!
