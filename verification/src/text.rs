//! Text helpers for identifiers: decimal numbers and prefixes.

use vstd::prelude::*;
use vstd::string::*;

verus! {

/// The character of the decimal digit `d`.
pub open spec fn digit_char(d: int) -> char {
    ((48 + d) as u32) as char
}

/// `c` is one of `'0'..='9'`.
pub open spec fn is_digit(c: char) -> bool {
    48 <= c as u32 <= 57
}

/// The digit that `c` stands for.
pub open spec fn digit_value(c: char) -> int {
    (c as u32) as int - 48
}

/// `n` written in decimal, without leading zeros.
pub open spec fn decimal_nat(n: nat) -> Seq<char>
    decreases n,
{
    if n < 10 {
        seq![digit_char(n as int)]
    } else {
        decimal_nat(n / 10).push(digit_char((n % 10) as int))
    }
}

/// `x` written in decimal, with a minus sign where it is negative.
pub open spec fn decimal(x: int) -> Seq<char> {
    if x < 0 {
        seq!['-'] + decimal_nat((-x) as nat)
    } else {
        decimal_nat(x as nat)
    }
}

/// Every character of `s` is a decimal digit.
pub open spec fn all_digits(s: Seq<char>) -> bool {
    forall|i: int| 0 <= i < s.len() ==> is_digit(#[trigger] s[i])
}

/// The number that the digit string `s` denotes.
pub open spec fn decimal_value(s: Seq<char>) -> int
    decreases s.len(),
{
    if s.len() == 0 {
        0
    } else {
        decimal_value(s.drop_last()) * 10 + digit_value(s.last())
    }
}

/// What a digit string reads as: its value, where it has one that fits.
pub open spec fn number_of(s: Seq<char>) -> Option<i32> {
    if s.len() > 0 && all_digits(s) && decimal_value(s) <= i32::MAX {
        Some(decimal_value(s) as i32)
    } else {
        None
    }
}

/// Writing a number and reading it back gives the number.
pub proof fn lemma_decimal_round_trip(n: nat)
    ensures
        decimal_nat(n).len() > 0,
        all_digits(decimal_nat(n)),
        decimal_value(decimal_nat(n)) == n,
    decreases n,
{
    if n < 10 {
        let s = decimal_nat(n);
        assert(s.len() == 1);
        assert(s[0] == digit_char(n as int));
        assert(s.drop_last().len() == 0);
        assert(decimal_value(s) == decimal_value(s.drop_last()) * 10 + digit_value(s.last()));
        assert(decimal_value(s.drop_last()) == 0);
    } else {
        lemma_decimal_round_trip(n / 10);
        let t = decimal_nat(n / 10);
        let s = decimal_nat(n);
        assert(s == t.push(digit_char((n % 10) as int)));
        assert(s.drop_last() =~= t);
        assert(s.last() == digit_char((n % 10) as int));
        assert forall|i: int| 0 <= i < s.len() implies is_digit(#[trigger] s[i]) by {
            if i < t.len() {
                assert(s[i] == t[i]);
            }
        }
    }
}

/// The one-character text of a decimal digit.
fn digit_text(d: u64) -> (s: &'static str)
    requires
        d < 10,
    ensures
        s@ == seq![digit_char(d as int)],
{
    proof {
        reveal_strlit("0");
        reveal_strlit("1");
        reveal_strlit("2");
        reveal_strlit("3");
        reveal_strlit("4");
        reveal_strlit("5");
        reveal_strlit("6");
        reveal_strlit("7");
        reveal_strlit("8");
        reveal_strlit("9");
    }
    let s = if d == 0 {
        "0"
    } else if d == 1 {
        "1"
    } else if d == 2 {
        "2"
    } else if d == 3 {
        "3"
    } else if d == 4 {
        "4"
    } else if d == 5 {
        "5"
    } else if d == 6 {
        "6"
    } else if d == 7 {
        "7"
    } else if d == 8 {
        "8"
    } else {
        "9"
    };
    assert(s@ =~= seq![digit_char(d as int)]);
    s
}

/// Appends `n` in decimal to `out`.
pub fn push_decimal_nat(out: &mut String, n: u64)
    ensures
        final(out)@ == old(out)@ + decimal_nat(n as nat),
    decreases n,
{
    if n >= 10 {
        push_decimal_nat(out, n / 10);
        out.append(digit_text(n % 10));
        assert(out@ =~= old(out)@ + decimal_nat(n as nat));
    } else {
        out.append(digit_text(n));
    }
}

/// Appends `x` in decimal to `out`.
pub fn push_decimal(out: &mut String, x: i32)
    ensures
        final(out)@ == old(out)@ + decimal(x as int),
{
    if x < 0 {
        proof {
            reveal_strlit("-");
        }
        out.append("-");
        let m: u64 = (0 - (x as i64)) as u64;
        push_decimal_nat(out, m);
        assert("-"@ =~= seq!['-']);
        assert(out@ =~= old(out)@ + decimal(x as int));
    } else {
        push_decimal_nat(out, x as u64);
    }
}

/// Whether `text` begins with `prefix`.
pub fn has_prefix(text: &String, prefix: &str) -> (b: bool)
    ensures
        b == prefix@.is_prefix_of(text@),
{
    let n = text.as_str().unicode_len();
    let m = prefix.unicode_len();
    if m > n {
        return false;
    }
    let mut i: usize = 0;
    while i < m
        invariant
            i <= m <= n,
            n == text@.len(),
            m == prefix@.len(),
            forall|j: int| 0 <= j < i ==> #[trigger] text@[j] == prefix@[j],
        decreases m - i,
    {
        if text.as_str().get_char(i) != prefix.get_char(i) {
            assert(text@.subrange(0, m as int)[i as int] != prefix@[i as int]);
            return false;
        }
        i += 1;
    }
    assert(prefix@ =~= text@.subrange(0, m as int));
    true
}

/// The characters of `text`, one by one.
pub fn chars_of(text: &String) -> (v: Vec<char>)
    ensures
        v@ == text@,
{
    let n = text.as_str().unicode_len();
    let mut v: Vec<char> = Vec::new();
    let mut i: usize = 0;
    while i < n
        invariant
            i <= n,
            n == text@.len(),
            v@ == text@.subrange(0, i as int),
        decreases n - i,
    {
        v.push(text.as_str().get_char(i));
        assert(v@ =~= text@.subrange(0, i + 1));
        i += 1;
    }
    assert(text@.subrange(0, n as int) =~= text@);
    v
}

/// A digit string is worth at least as much as any of its beginnings.
pub proof fn lemma_value_prefix(s: Seq<char>, k: int)
    requires
        all_digits(s),
        0 <= k <= s.len(),
    ensures
        0 <= decimal_value(s.subrange(0, k)) <= decimal_value(s),
    decreases s.len() - k,
{
    if k == s.len() {
        assert(s.subrange(0, k) =~= s);
        lemma_value_nonneg(s);
    } else {
        let t = s.drop_last();
        assert forall|i: int| 0 <= i < t.len() implies is_digit(#[trigger] t[i]) by {
            assert(t[i] == s[i]);
        }
        lemma_value_prefix(t, k);
        assert(t.subrange(0, k) =~= s.subrange(0, k));
        assert(is_digit(s[s.len() - 1]));
    }
}

/// A digit string is worth no less than zero.
pub proof fn lemma_value_nonneg(s: Seq<char>)
    requires
        all_digits(s),
    ensures
        0 <= decimal_value(s),
    decreases s.len(),
{
    if s.len() > 0 {
        let t = s.drop_last();
        assert forall|i: int| 0 <= i < t.len() implies is_digit(#[trigger] t[i]) by {
            assert(t[i] == s[i]);
        }
        lemma_value_nonneg(t);
        assert(is_digit(s[s.len() - 1]));
    }
}

/// The first position at or after `start` that holds `c`, or the length of
/// `chars` where there is none.
pub fn find_char(chars: &Vec<char>, start: usize, c: char) -> (i: usize)
    requires
        start <= chars@.len(),
    ensures
        start <= i <= chars@.len(),
        forall|j: int| start <= j < i ==> #[trigger] chars@[j] != c,
        i < chars@.len() ==> chars@[i as int] == c,
{
    let mut i: usize = start;
    while i < chars.len()
        invariant
            start <= i <= chars@.len(),
            forall|j: int| start <= j < i ==> #[trigger] chars@[j] != c,
        decreases chars.len() - i,
    {
        if chars[i] == c {
            return i;
        }
        i += 1;
    }
    i
}

/// Reads the characters `start..end` as a decimal number.
pub fn parse_number(chars: &Vec<char>, start: usize, end: usize) -> (r: Option<i32>)
    requires
        start <= end <= chars@.len(),
    ensures
        r == number_of(chars@.subrange(start as int, end as int)),
{
    let ghost s = chars@.subrange(start as int, end as int);
    if start == end {
        return None;
    }
    let mut value: i64 = 0;
    let mut i: usize = start;
    assert(s.subrange(0, 0) =~= Seq::<char>::empty());
    while i < end
        invariant
            start <= i <= end <= chars@.len(),
            s == chars@.subrange(start as int, end as int),
            all_digits(s.subrange(0, i - start)),
            value == decimal_value(s.subrange(0, i - start)),
            0 <= value <= i32::MAX,
        decreases end - i,
    {
        let c = chars[i];
        let code = c as u32;
        if code < 48 || code > 57 {
            assert(!is_digit(s[i - start]));
            return None;
        }
        let digit = (code - 48) as i64;
        let ghost before = s.subrange(0, i - start);
        let ghost now = s.subrange(0, i - start + 1);
        proof {
            assert(now.drop_last() =~= before);
            assert(now.last() == c);
            assert forall|j: int| 0 <= j < now.len() implies is_digit(#[trigger] now[j]) by {
                if j < before.len() {
                    assert(now[j] == before[j]);
                }
            }
        }
        value = value * 10 + digit;
        if value > 0x7fff_ffff {
            proof {
                if all_digits(s) {
                    lemma_value_prefix(s, i - start + 1);
                }
            }
            return None;
        }
        i += 1;
    }
    assert(s.subrange(0, end - start) =~= s);
    Some(value as i32)
}

/// What a field reads as: an empty field stands for 0; else a decimal
/// number of no more than `i32::MAX`, with a minus sign before it or
/// without.
pub open spec fn field_number(s: Seq<char>) -> Option<i32> {
    if s.len() == 0 {
        Some(0i32)
    } else if s[0] == '-' {
        match number_of(s.subrange(1, s.len() as int)) {
            Some(v) => Some((0 - v) as i32),
            None => None,
        }
    } else {
        number_of(s)
    }
}

/// Reads a field as a number.
pub fn read_field(field: &String) -> (r: Option<i32>)
    ensures
        r == field_number(field@),
{
    let chars = chars_of(field);
    let n = chars.len();
    if n == 0 {
        return Some(0);
    }
    if chars[0] == '-' {
        match parse_number(&chars, 1, n) {
            Some(v) => {
                proof {
                    lemma_number_nonneg(chars@.subrange(1, n as int));
                }
                Some(0 - v)
            },
            None => None,
        }
    } else {
        assert(chars@.subrange(0, n as int) =~= field@);
        parse_number(&chars, 0, n)
    }
}

/// A number that a digit string reads as is not negative.
pub proof fn lemma_number_nonneg(s: Seq<char>)
    ensures
        number_of(s) matches Some(v) ==> 0 <= v,
{
    if s.len() > 0 && all_digits(s) {
        lemma_value_nonneg(s);
    }
}

} // verus!
