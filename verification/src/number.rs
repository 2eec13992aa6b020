//! Decimal numbers in text.

use vstd::prelude::*;
use vstd::string::{StrSliceExecFns, StringExecFns};

verus! {

/// The number that a digit stands for.
pub open spec fn digit_value(c: char) -> Option<nat> {
    if '0' <= c <= '9' {
        Some((c as u32 - '0' as u32) as nat)
    } else {
        None
    }
}

/// The digit for a number below 10.
pub open spec fn digit_char(d: int) -> char {
    if d == 0 {
        '0'
    } else if d == 1 {
        '1'
    } else if d == 2 {
        '2'
    } else if d == 3 {
        '3'
    } else if d == 4 {
        '4'
    } else if d == 5 {
        '5'
    } else if d == 6 {
        '6'
    } else if d == 7 {
        '7'
    } else if d == 8 {
        '8'
    } else {
        '9'
    }
}

/// The number that a run of digits stands for, `None` where something else is among
/// them.
pub open spec fn digits_value(s: Seq<char>) -> Option<nat>
    decreases s.len(),
{
    if s.len() == 0 {
        Some(0)
    } else {
        match (digits_value(s.drop_last()), digit_value(s.last())) {
            (Some(n), Some(d)) => Some(n * 10 + d),
            _ => None,
        }
    }
}

/// The number that `s` stands for: one digit or more, behind an optional plus sign.
pub open spec fn number(s: Seq<char>) -> Option<nat> {
    let digits = if s.len() > 1 && s[0] == '+' {
        s.skip(1)
    } else {
        s
    };
    if digits.len() == 0 {
        None
    } else {
        digits_value(digits)
    }
}

/// The decimal digits of `n`.
pub open spec fn decimal(n: nat) -> Seq<char>
    decreases n,
{
    if n < 10 {
        seq![digit_char(n as int)]
    } else {
        decimal(n / 10).push(digit_char((n % 10) as int))
    }
}

proof fn lemma_digits_grow(s: Seq<char>, k: int)
    requires
        0 <= k <= s.len(),
        digits_value(s) is Some,
    ensures
        digits_value(s.take(k)) is Some,
        digits_value(s.take(k))->Some_0 <= digits_value(s)->Some_0,
    decreases s.len(),
{
    if k == s.len() {
        assert(s.take(k) =~= s);
    } else {
        lemma_digits_grow(s.drop_last(), k);
        assert(s.drop_last().take(k) =~= s.take(k));
    }
}

/// A number is read back from its digits.
pub proof fn law_decimal_is_read_back(n: nat)
    ensures
        number(decimal(n)) == Some(n),
        decimal(n).len() > 0,
        forall|i: int| 0 <= i < decimal(n).len() ==> '0' <= #[trigger] decimal(n)[i] <= '9',
    decreases n,
{
    lemma_decimal(n);
    assert('0' <= decimal(n)[0] <= '9');
}

proof fn lemma_decimal(n: nat)
    ensures
        digits_value(decimal(n)) == Some(n),
        decimal(n).len() > 0,
        forall|i: int| 0 <= i < decimal(n).len() ==> '0' <= #[trigger] decimal(n)[i] <= '9',
    decreases n,
{
    let d = decimal(n);
    let c = digit_char((n % 10) as int);
    assert('0' <= c <= '9');
    assert(digit_value(c) == Some((n % 10) as nat));
    if n < 10 {
        assert(d.drop_last() =~= Seq::empty());
        assert(digits_value(d.drop_last()) == Some(0nat));
        assert(d.last() == c);
    } else {
        lemma_decimal(n / 10);
        assert(d.drop_last() =~= decimal(n / 10));
        assert(d.last() == c);
        assert(n == (n / 10) * 10 + n % 10);
        assert forall|i: int| 0 <= i < d.len() implies '0' <= #[trigger] d[i] <= '9' by {
            if i < d.len() - 1 {
                assert(d[i] == decimal(n / 10)[i]);
            }
        }
    }
}

/// Reads a number that is at most `max`.
pub fn parse_number(s: &str, max: u64) -> (r: Option<u64>)
    ensures
        match r {
            Some(n) => number(s@) == Some(n as nat) && n <= max,
            None => number(s@) is None || number(s@)->Some_0 > max,
        },
{
    let len = s.unicode_len();
    let start: usize = if len > 1 && s.get_char(0) == '+' {
        1
    } else {
        0
    };
    let ghost digits = s@.skip(start as int);
    assert(s@.skip(0) =~= s@);
    if len == 0 {
        return None;
    }
    let mut n: u64 = 0;
    assert(digits.take(0) =~= Seq::empty());
    for i in start..len
        invariant
            len == s@.len(),
            start <= i <= len,
            start < len,
            digits == s@.skip(start as int),
            number(s@) == digits_value(digits),
            digits_value(digits.take(i - start)) == Some(n as nat),
            n <= max,
    {
        let c = s.get_char(i);
        proof {
            assert(digits[i - start] == c);
            assert(digits.take(i + 1 - start).drop_last() =~= digits.take(i - start));
            assert(digits.take(i + 1 - start).last() == c);
            if digits_value(digits) is Some {
                lemma_digits_grow(digits, i + 1 - start);
            }
        }
        if c < '0' || c > '9' {
            return None;
        }
        let d = (c as u32 - '0' as u32) as u64;
        if n > (u64::MAX - d) / 10 {
            return None;
        }
        let m = n * 10 + d;
        if m > max {
            return None;
        }
        n = m;
    }
    assert(digits.take(len - start) =~= digits);
    Some(n)
}

fn digit_text(d: u64) -> (r: &'static str)
    requires
        d < 10,
    ensures
        r@ == seq![digit_char(d as int)],
{
    proof {
        reveal_strlit("0");
        reveal_strlit("1");
        reveal_strlit("2");
        reveal_strlit("3");
        reveal_strlit("4");
        reveal_strlit("5");
        reveal_strlit("6");
        reveal_strlit("7");
        reveal_strlit("8");
        reveal_strlit("9");
    }
    let r = match d {
        0 => "0",
        1 => "1",
        2 => "2",
        3 => "3",
        4 => "4",
        5 => "5",
        6 => "6",
        7 => "7",
        8 => "8",
        _ => "9",
    };
    assert(r@ =~= seq![digit_char(d as int)]);
    r
}

/// The decimal digits of `n`.
pub fn number_text(n: u64) -> (r: String)
    ensures
        r@ == decimal(n as nat),
    decreases n,
{
    if n < 10 {
        String::from_str(digit_text(n))
    } else {
        let mut r = number_text(n / 10);
        let d = digit_text(n % 10);
        r.append(d);
        assert(r@ =~= decimal(n as nat));
        r
    }
}

/// The hexadecimal digit for a number below 16.
pub open spec fn hex_char(d: int) -> char {
    if d < 10 {
        digit_char(d)
    } else if d == 10 {
        'a'
    } else if d == 11 {
        'b'
    } else if d == 12 {
        'c'
    } else if d == 13 {
        'd'
    } else if d == 14 {
        'e'
    } else {
        'f'
    }
}

/// The hexadecimal digits of `n`.
pub open spec fn hex(n: nat) -> Seq<char>
    decreases n,
{
    if n < 16 {
        seq![hex_char(n as int)]
    } else {
        hex(n / 16).push(hex_char((n % 16) as int))
    }
}

fn hex_digit_text(d: u64) -> (r: &'static str)
    requires
        d < 16,
    ensures
        r@ == seq![hex_char(d as int)],
{
    if d < 10 {
        return digit_text(d);
    }
    proof {
        reveal_strlit("a");
        reveal_strlit("b");
        reveal_strlit("c");
        reveal_strlit("d");
        reveal_strlit("e");
        reveal_strlit("f");
    }
    let r = match d {
        10 => "a",
        11 => "b",
        12 => "c",
        13 => "d",
        14 => "e",
        _ => "f",
    };
    assert(r@ =~= seq![hex_char(d as int)]);
    r
}

/// The hexadecimal digits of `n`.
pub fn hex_text(n: u64) -> (r: String)
    ensures
        r@ == hex(n as nat),
    decreases n,
{
    if n < 16 {
        String::from_str(hex_digit_text(n))
    } else {
        let mut r = hex_text(n / 16);
        let d = hex_digit_text(n % 16);
        r.append(d);
        assert(r@ =~= hex(n as nat));
        r
    }
}

/// A digit behind a number of digits makes it ten times as large and adds what the digit
/// stands for.
pub proof fn law_digits_count_by_place(s: Seq<char>, c: char)
    requires
        '0' <= c <= '9',
        forall|i: int| 0 <= i < s.len() ==> '0' <= #[trigger] s[i] <= '9',
    ensures
        s.len() == 0 ==> number(s.push(c)) == Some((c as int - '0' as int) as nat),
        s.len() > 0 ==> number(s) is Some && number(s.push(c)) == Some(
            (number(s)->Some_0 * 10 + (c as int - '0' as int)) as nat,
        ),
{
    assert(s.push(c).drop_last() =~= s);
    assert(s.push(c)[0] == if s.len() == 0 {
        c
    } else {
        s[0]
    });
    lemma_digits_make_a_number(s);
}

proof fn lemma_digits_make_a_number(s: Seq<char>)
    requires
        forall|i: int| 0 <= i < s.len() ==> '0' <= #[trigger] s[i] <= '9',
    ensures
        digits_value(s) is Some,
    decreases s.len(),
{
    if s.len() > 0 {
        let t = s.drop_last();
        assert forall|i: int| 0 <= i < t.len() implies '0' <= #[trigger] t[i] <= '9' by {
            assert(t[i] == s[i]);
        }
        lemma_digits_make_a_number(t);
        assert('0' <= s[s.len() - 1] <= '9');
    }
}

proof fn lemma_one_other_spoils(s: Seq<char>, i: int)
    requires
        0 <= i < s.len(),
        !('0' <= s[i] <= '9'),
    ensures
        digits_value(s) is None,
    decreases s.len(),
{
    if i < s.len() - 1 {
        assert(s.drop_last()[i] == s[i]);
        lemma_one_other_spoils(s.drop_last(), i);
    }
}

/// Digits are a number, with a plus sign before them or without; nothing else is, and
/// neither are no digits at all.
pub proof fn law_only_digits_are_numbers(s: Seq<char>)
    ensures
        number(Seq::empty()) is None,
        number(seq!['+']) is None,
        s.len() > 0 && (forall|i: int| 0 <= i < s.len() ==> '0' <= #[trigger] s[i] <= '9')
            ==> number(s) is Some && number(seq!['+'] + s) == number(s),
        forall|i: int|
            0 <= i < s.len() && !('0' <= #[trigger] s[i] <= '9') ==> number(seq!['+'] + s) is None
                && (i > 0 || s[0] != '+' ==> number(s) is None),
{
    let plus = seq!['+'];
    assert(!('0' <= plus[0] <= '9'));
    lemma_one_other_spoils(plus, 0);
    assert((plus + s).skip(1) =~= s);
    if forall|i: int| 0 <= i < s.len() ==> '0' <= #[trigger] s[i] <= '9' {
        lemma_digits_make_a_number(s);
        if s.len() > 0 {
            assert('0' <= s[0] <= '9');
        }
    }
    assert forall|i: int| 0 <= i < s.len() && !('0' <= #[trigger] s[i] <= '9') implies number(
        plus + s,
    ) is None && (i > 0 || s[0] != '+' ==> number(s) is None) by {
        lemma_one_other_spoils(s, i);
        if i > 0 {
            assert(s.skip(1)[i - 1] == s[i]);
            lemma_one_other_spoils(s.skip(1), i - 1);
        }
    }
}

/// Numbers are written with the digit of least weight last.
pub proof fn law_numbers_are_written_by_place(n: nat, d: nat)
    ensures
        d < 10 ==> decimal(d) == seq![(48 + d) as char],
        d < 10 && n > 0 ==> decimal(n * 10 + d) == decimal(n).push((48 + d) as char),
        d < 10 ==> hex(d) == seq![(48 + d) as char],
        10 <= d < 16 ==> hex(d) == seq![(87 + d) as char],
        d < 10 && n > 0 ==> hex(n * 16 + d) == hex(n).push((48 + d) as char),
        10 <= d < 16 && n > 0 ==> hex(n * 16 + d) == hex(n).push((87 + d) as char),
{
    if d < 10 {
        assert((n * 10 + d) / 10 == n && (n * 10 + d) % 10 == d);
        assert(digit_char(d as int) == (48 + d) as char);
    }
    if d < 16 {
        assert((n * 16 + d) / 16 == n && (n * 16 + d) % 16 == d);
    }
}

} // verus!
