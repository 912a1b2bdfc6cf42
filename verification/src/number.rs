//! Decimal numbers in text: reading them as `str::parse::<u64>` does, writing them as `u64`'s
//! `Display` does, and reading size thresholds such as `1024`, `1K`, `1M` or `1G`.
use vstd::prelude::*;
use crate::text::{chars_of, push_char, trim, trim_bounds, trim_start, trim_end, is_space};

verus! {

/// Whether `c` is one of the ASCII digits `0` to `9`.
pub open spec fn is_digit(c: char) -> bool {
    '0' <= c && c <= '9'
}

/// The value of the digit `c`.
pub open spec fn digit_value(c: char) -> nat {
    (c as u32 - '0' as u32) as nat
}

/// The digit whose value is `d` (below ten).
pub open spec fn digit_char(d: nat) -> char {
    (d + '0' as u32) as char
}

/// Whether every character of `s` is a digit.
pub open spec fn all_digits(s: Seq<char>) -> bool {
    forall|i: int| 0 <= i < s.len() ==> #[trigger] is_digit(s[i])
}

/// The number that the digits `s` write in base ten.
pub open spec fn decimal_value(s: Seq<char>) -> nat
    decreases s.len(),
{
    if s.len() == 0 {
        0
    } else {
        decimal_value(s.drop_last()) * 10 + digit_value(s.last())
    }
}

/// What `str::parse::<u64>` gives for the text `s`: an optional `+`, then one or more digits
/// whose value fits in a `u64`; anything else is refused.
pub open spec fn parse_u64_spec(s: Seq<char>) -> Option<u64> {
    let d = if s.len() > 0 && s[0] == '+' {
        s.drop_first()
    } else {
        s
    };
    if d.len() > 0 && all_digits(d) && decimal_value(d) <= u64::MAX {
        Some(decimal_value(d) as u64)
    } else {
        None
    }
}

/// The decimal writing of `n`, without sign or leading zeros (`0` for zero).
pub open spec fn decimal(n: nat) -> Seq<char>
    decreases n,
{
    if n < 10 {
        seq![digit_char(n)]
    } else {
        decimal(n / 10).push(digit_char(n % 10))
    }
}

proof fn lemma_decimal_value_prefix(s: Seq<char>, i: int)
    requires
        0 <= i <= s.len(),
        all_digits(s),
    ensures
        decimal_value(s.take(i)) <= decimal_value(s),
    decreases s.len(),
{
    if i < s.len() {
        assert(s.drop_last().take(i) == s.take(i));
        lemma_decimal_value_prefix(s.drop_last(), i);
    } else {
        assert(s.take(i) == s);
    }
}

/// Reads `chars[from..to]` as `str::parse::<u64>` does.
pub fn parse_u64_in(chars: &Vec<char>, from: usize, to: usize) -> (r: Option<u64>)
    requires
        from <= to <= chars.len(),
    ensures
        r == parse_u64_spec(chars@.subrange(from as int, to as int)),
{
    let ghost s = chars@.subrange(from as int, to as int);
    let start = if from < to && chars[from] == '+' {
        from + 1
    } else {
        from
    };
    let ghost d = chars@.subrange(start as int, to as int);
    assert(d == (if s.len() > 0 && s[0] == '+' {
        s.drop_first()
    } else {
        s
    }));
    if start == to {
        return None;
    }
    let mut value: u64 = 0;
    let mut i = start;
    assert(d.take(0) == Seq::<char>::empty());
    while i < to
        invariant
            start <= i <= to,
            to <= chars.len(),
            d == chars@.subrange(start as int, to as int),
            s == chars@.subrange(from as int, to as int),
            d == (if s.len() > 0 && s[0] == '+' {
                s.drop_first()
            } else {
                s
            }),
            all_digits(d.take(i - start)),
            value == decimal_value(d.take(i - start)),
        decreases to - i,
    {
        let c = chars[i];
        assert(d.take(i - start + 1).drop_last() == d.take(i - start));
        assert(d.take(i - start + 1).last() == c);
        assert(d[i - start] == c);
        if !('0' <= c && c <= '9') {
            assert(!is_digit(d[i - start]));
            assert(!all_digits(d));
            return None;
        }
        let digit = (c as u32 - '0' as u32) as u64;
        assert(decimal_value(d.take(i - start + 1)) == value * 10 + digit);
        match value.checked_mul(10) {
            None => {
                proof {
                    lemma_not_all_digits_or_large(d, i - start + 1);
                }
                return None;
            },
            Some(v10) => {
                match v10.checked_add(digit) {
                    None => {
                        proof {
                            lemma_not_all_digits_or_large(d, i - start + 1);
                        }
                        return None;
                    },
                    Some(v) => {
                        value = v;
                    },
                }
            },
        }
        i += 1;
    }
    assert(d.take(to - start) == d);
    Some(value)
}

/// A prefix whose value exceeds `u64::MAX` makes the whole text fail to parse.
proof fn lemma_not_all_digits_or_large(d: Seq<char>, i: int)
    requires
        0 <= i <= d.len(),
        decimal_value(d.take(i)) > u64::MAX,
    ensures
        !(all_digits(d) && decimal_value(d) <= u64::MAX),
{
    if all_digits(d) {
        lemma_decimal_value_prefix(d, i);
    }
}

/// Reads `s` as `str::parse::<u64>` does.
pub fn parse_u64(s: &str) -> (r: Option<u64>)
    ensures
        r == parse_u64_spec(s@),
{
    let chars = chars_of(s);
    assert(chars@.subrange(0, chars@.len() as int) == chars@);
    parse_u64_in(&chars, 0, chars.len())
}

/// Appends the decimal writing of `n` to `s`.
fn push_decimal(s: &mut String, n: u64)
    ensures
        final(s)@ == old(s)@ + decimal(n as nat),
    decreases n,
{
    if n >= 10 {
        push_decimal(s, n / 10);
    }
    let d = (n % 10) as u32;
    let c = char_from_digit(d);
    push_char(s, c);
}

/// The character of the digit `d`.
fn char_from_digit(d: u32) -> (c: char)
    requires
        d < 10,
    ensures
        c == digit_char(d as nat),
{
    if d == 0 {
        '0'
    } else if d == 1 {
        '1'
    } else if d == 2 {
        '2'
    } else if d == 3 {
        '3'
    } else if d == 4 {
        '4'
    } else if d == 5 {
        '5'
    } else if d == 6 {
        '6'
    } else if d == 7 {
        '7'
    } else if d == 8 {
        '8'
    } else {
        '9'
    }
}

/// The decimal writing of `n`, as `format!("{n}")` gives it.
pub fn decimal_string(n: u64) -> (s: String)
    ensures
        s@ == decimal(n as nat),
{
    let mut s = String::new();
    push_decimal(&mut s, n);
    s
}

/// The multiplier that the last character of a size selects, in either case: `K` for
/// kibibytes, `M` for mebibytes, `G` for gibibytes.
pub open spec fn suffix_multiplier(c: char) -> Option<u64> {
    if c == 'k' || c == 'K' {
        Some(1024)
    } else if c == 'm' || c == 'M' {
        Some(1048576)
    } else if c == 'g' || c == 'G' {
        Some(1073741824)
    } else {
        None
    }
}

/// The count and the multiplier that the size text `s` writes. The text is trimmed; a last
/// character `K`, `M` or `G`, in either case, selects a multiplier and is cut off, and the
/// rest, trimmed again, must read as a `u64`; without such a letter the multiplier is one.
///
/// The letter is read in either case, so this is also what the text gives once it is
/// upper-cased (`str::to_uppercase`) and then read with capital letters only: no other
/// character upper-cases to a text that ends in `K`, `M` or `G`, and upper-casing maps digits,
/// `+` and white space to themselves and every other character to characters that are none
/// of them.
pub open spec fn size_text_parts(s: Seq<char>) -> Option<(u64, u64)> {
    let t = trim(s);
    if t.len() > 0 && suffix_multiplier(t.last()) is Some {
        match parse_u64_spec(trim(t.drop_last())) {
            Some(n) => Some((n, suffix_multiplier(t.last())->0)),
            None => None,
        }
    } else {
        match parse_u64_spec(t) {
            Some(n) => Some((n, 1u64)),
            None => None,
        }
    }
}

/// The number of bytes that the size text `s` stands for, where it reads as a size.
pub open spec fn size_text_bytes(s: Seq<char>) -> Option<int> {
    match size_text_parts(s) {
        Some((n, m)) => Some(n * m),
        None => None,
    }
}

/// Reads the count and the multiplier of a size such as `1024`, `1K`, `1M` or `1G`.
pub fn split_size(size_str: &str) -> (r: Option<(u64, u64)>)
    ensures
        r == size_text_parts(size_str@),
{
    let chars = chars_of(size_str);
    let ghost s = chars@;
    assert(chars@.subrange(0, chars@.len() as int) == s);
    let (a, b) = trim_bounds(&chars, 0, chars.len());
    let ghost t = chars@.subrange(a as int, b as int);
    if a < b {
        let last = chars[b - 1];
        assert(t.last() == last);
        let multiplier: u64 = if last == 'k' || last == 'K' {
            1024
        } else if last == 'm' || last == 'M' {
            1048576
        } else if last == 'g' || last == 'G' {
            1073741824
        } else {
            0
        };
        if multiplier != 0 {
            assert(t.drop_last() == chars@.subrange(a as int, b - 1));
            let (c, d) = trim_bounds(&chars, a, b - 1);
            match parse_u64_in(&chars, c, d) {
                Some(n) => {
                    return Some((n, multiplier));
                },
                None => {
                    return None;
                },
            }
        }
    }
    match parse_u64_in(&chars, a, b) {
        Some(n) => Some((n, 1)),
        None => None,
    }
}

/// Parses a size string (e.g. `1024`, `1K`, `1M`, `1G`) into bytes. The caller makes sure
/// that the count times the multiplier fits in a `u64`.
pub fn parse_size(size_str: &str) -> (r: Option<u64>)
    requires
        size_text_bytes(size_str@) matches Some(n) ==> n <= u64::MAX,
    ensures
        r == (match size_text_bytes(size_str@) {
            Some(n) => Some(n as u64),
            None => None,
        }),
{
    match split_size(size_str) {
        Some((n, m)) => Some(n * m),
        None => None,
    }
}

/// The byte threshold that an optional size text sets: the bytes it stands for where it
/// reads as a size, else zero (no threshold).
pub open spec fn min_size_of(arg: Option<Seq<char>>) -> int {
    match arg {
        Some(s) => match size_text_bytes(s) {
            Some(n) => n,
            None => 0,
        },
        None => 0,
    }
}

/// The byte threshold of an optional minimum size such as `1K`: zero without one, or where
/// it does not read as a size. The caller makes sure that a count times its multiplier fits
/// in a `u64`.
pub fn min_size_threshold(min_size: Option<&str>) -> (r: u64)
    requires
        min_size matches Some(s) ==> (size_text_bytes(s@) matches Some(n) ==> n <= u64::MAX),
    ensures
        r == min_size_of(
            match min_size {
                Some(s) => Some(s@),
                None => None,
            },
        ),
{
    match min_size {
        Some(s) => match parse_size(s) {
            Some(n) => n,
            None => 0,
        },
        None => 0,
    }
}

proof fn lemma_digit_char(d: nat)
    requires
        d < 10,
    ensures
        is_digit(digit_char(d)),
        digit_value(digit_char(d)) == d,
        !is_space(digit_char(d)),
        digit_char(d) != '+',
        suffix_multiplier(digit_char(d)) is None,
{
}

proof fn lemma_decimal(n: nat)
    ensures
        decimal(n).len() > 0,
        all_digits(decimal(n)),
        decimal_value(decimal(n)) == n,
    decreases n,
{
    lemma_digit_char(n % 10);
    if n >= 10 {
        lemma_decimal(n / 10);
        let s = decimal(n);
        assert(s.drop_last() == decimal(n / 10));
        assert(s.last() == digit_char(n % 10));
        assert(n == (n / 10) * 10 + n % 10) by (nonlinear_arith);
        assert(decimal_value(s) == decimal_value(s.drop_last()) * 10 + digit_value(s.last()));
        assert(digit_value(s.last()) == n % 10);
        assert forall|i: int| 0 <= i < s.len() implies #[trigger] is_digit(s[i]) by {
            if i < s.len() - 1 {
                assert(s[i] == decimal(n / 10)[i]);
            }
        }
    } else {
        assert(decimal(n).drop_last() == Seq::<char>::empty());
        assert(n % 10 == n);
        let s = decimal(n);
        assert(decimal_value(s) == decimal_value(s.drop_last()) * 10 + digit_value(s.last()));
        assert(decimal_value(s.drop_last()) == 0);
    }
}

/// Writing a `u64` in decimal and reading it back gives the same number, both as a `u64`
/// and as a size threshold: a plain byte count that the report prints is accepted as a
/// minimum size and stands for that many bytes.
pub proof fn law_decimal_roundtrip(n: u64)
    ensures
        parse_u64_spec(decimal(n as nat)) == Some(n),
        size_text_bytes(decimal(n as nat)) == Some(n as int),
{
    let s = decimal(n as nat);
    lemma_decimal(n as nat);
    assert(is_digit(s[0]));
    assert(is_digit(s.last()));
    assert(!is_space(s[0]));
    assert(!is_space(s.last()));
    assert(trim_start(s) == s);
    assert(trim_end(s) == s);
    assert(trim(s) == s);
}

} // verus!
