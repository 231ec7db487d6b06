//! Decimal numerals: how numbers are written in tag values and read back.

use vstd::prelude::*;
use vstd::string::StringExecFns;

verus! {

/// True for the ten decimal digits.
pub open spec fn is_digit(c: char) -> bool {
    '0' as u32 <= c as u32 && c as u32 <= '9' as u32
}

/// The digit that stands for `d`, for `d` below ten.
pub open spec fn digit_char(d: nat) -> char
    recommends
        d < 10,
{
    ('0' as u32 + d) as char
}

/// The number that the digit `c` stands for.
pub open spec fn digit_value(c: char) -> nat {
    if is_digit(c) {
        (c as u32 - '0' as u32) as nat
    } else {
        0
    }
}

/// The decimal numeral of `n`, without leading zeros.
pub open spec fn decimal(n: nat) -> Seq<char>
    decreases n,
{
    if n < 10 {
        seq![digit_char(n)]
    } else {
        decimal(n / 10).push(digit_char(n % 10))
    }
}

pub open spec fn all_digits(s: Seq<char>) -> bool {
    forall|i: int| 0 <= i < s.len() ==> is_digit(#[trigger] s[i])
}

/// The number that a string of digits stands for, the most significant digit first.
pub open spec fn decimal_value(s: Seq<char>) -> nat
    decreases s.len(),
{
    if s.len() == 0 {
        0
    } else {
        decimal_value(s.drop_last()) * 10 + digit_value(s.last())
    }
}

/// What a text reads as: a number, if it is one digit or more and nothing else.
pub open spec fn parse_decimal(s: Seq<char>) -> Option<nat> {
    if s.len() > 0 && all_digits(s) {
        Some(decimal_value(s))
    } else {
        None
    }
}

/// A numeral is made of digits only, and at least one.
pub proof fn lemma_decimal_digits(n: nat)
    ensures
        decimal(n).len() > 0,
        all_digits(decimal(n)),
    decreases n,
{
    if n >= 10 {
        lemma_decimal_digits(n / 10);
    }
}

/// Reading the numeral of a number gives the number back.
pub proof fn lemma_parse_decimal(n: nat)
    ensures
        parse_decimal(decimal(n)) == Some(n),
    decreases n,
{
    lemma_decimal_digits(n);
    if n < 10 {
        assert(decimal(n).drop_last() =~= Seq::<char>::empty());
        assert(decimal_value(decimal(n).drop_last()) == 0);
    } else {
        lemma_parse_decimal(n / 10);
        assert(decimal(n).drop_last() =~= decimal(n / 10));
    }
}

/// The value of a prefix never exceeds the value of the whole.
pub proof fn lemma_decimal_value_prefix(s: Seq<char>, k: int)
    requires
        0 <= k <= s.len(),
    ensures
        decimal_value(s.take(k)) <= decimal_value(s),
    decreases s.len(),
{
    if k == s.len() {
        assert(s.take(k) =~= s);
    } else {
        lemma_decimal_value_prefix(s.drop_last(), k);
        assert(s.drop_last().take(k) =~= s.take(k));
    }
}

fn digit_str(d: u64) -> (s: &'static str)
    requires
        d < 10,
    ensures
        s@ == seq![digit_char(d as nat)],
{
    proof {
        reveal_strlit("0");
        reveal_strlit("1");
        reveal_strlit("2");
        reveal_strlit("3");
        reveal_strlit("4");
        reveal_strlit("5");
        reveal_strlit("6");
        reveal_strlit("7");
        reveal_strlit("8");
        reveal_strlit("9");
    }
    let s = if d == 0 {
        "0"
    } else if d == 1 {
        "1"
    } else if d == 2 {
        "2"
    } else if d == 3 {
        "3"
    } else if d == 4 {
        "4"
    } else if d == 5 {
        "5"
    } else if d == 6 {
        "6"
    } else if d == 7 {
        "7"
    } else if d == 8 {
        "8"
    } else {
        "9"
    };
    assert(s@ =~= seq![digit_char(d as nat)]);
    s
}

/// Appends the decimal numeral of `n` to `out`.
pub fn push_decimal(out: &mut String, n: u64)
    ensures
        final(out)@ == old(out)@ + decimal(n as nat),
    decreases n,
{
    if n >= 10 {
        push_decimal(out, n / 10);
    }
    out.append(digit_str(n % 10));
    assert(out@ =~= old(out)@ + decimal(n as nat));
}

/// The decimal numeral of `n`.
pub fn format_decimal(n: u64) -> (s: String)
    ensures
        s@ == decimal(n as nat),
{
    let mut s = String::new();
    push_decimal(&mut s, n);
    assert(s@ =~= decimal(n as nat));
    s
}

/// What `parse_u64` returns: the number that `s` reads as, if a `u64` can hold it.
pub open spec fn parse_decimal_u64(s: Seq<char>) -> Option<u64> {
    match parse_decimal(s) {
        Some(v) => if v <= u64::MAX {
            Some(v as u64)
        } else {
            None
        },
        None => None,
    }
}

/// Reads a decimal numeral: digits only, at least one, of a value that fits.
pub fn parse_u64(s: &str) -> (r: Option<u64>)
    ensures
        r == parse_decimal_u64(s@),
{
    let mut value: u64 = 0;
    let mut seen = false;
    for c in it: s.chars()
        invariant
            it.seq() == s@,
            seen == (it.index() > 0),
            all_digits(s@.take(it.index() as int)),
            value == decimal_value(s@.take(it.index() as int)),
    {
        proof {
            let i = it.index() as int;
            assert(s@.take(i + 1).drop_last() =~= s@.take(i));
            assert(s@.take(i + 1).last() == c);
            lemma_decimal_value_prefix(s@, i + 1);
        }
        let code: u32 = c as u32;
        if code < 48 || code > 57 {
            return None;
        }
        let d: u64 = (code - 48) as u64;
        if value > (u64::MAX - d) / 10 {
            return None;
        }
        value = value * 10 + d;
        seen = true;
    }
    assert(s@.take(s@.len() as int) =~= s@);
    if seen {
        Some(value)
    } else {
        None
    }
}

} // verus!
