//! Decimal numbers as text: reading them the way `str::parse` does for the
//! unsigned integer types, and writing them without leading zeros.

use vstd::prelude::*;
use vstd::string::StringExecFns;

verus! {

/// True for the ten ASCII digits.
pub open spec fn is_digit(c: char) -> bool {
    '0' <= c && c <= '9'
}

/// The number a digit stands for.
pub open spec fn digit_value(c: char) -> nat {
    (c as nat - '0' as nat) as nat
}

/// The character that stands for a number below ten.
pub open spec fn digit_char(d: nat) -> char {
    if d == 0 {
        '0'
    } else if d == 1 {
        '1'
    } else if d == 2 {
        '2'
    } else if d == 3 {
        '3'
    } else if d == 4 {
        '4'
    } else if d == 5 {
        '5'
    } else if d == 6 {
        '6'
    } else if d == 7 {
        '7'
    } else if d == 8 {
        '8'
    } else {
        '9'
    }
}

/// True when every character of `s` is a digit.
pub open spec fn all_digits(s: Seq<char>) -> bool {
    forall|i: int| 0 <= i < s.len() ==> is_digit(#[trigger] s[i])
}

/// The value of a sequence of digits read in base ten; the empty sequence is 0.
pub open spec fn decimal_value(digits: Seq<char>) -> nat
    decreases digits.len(),
{
    if digits.len() == 0 {
        0
    } else {
        decimal_value(digits.drop_last()) * 10 + digit_value(digits.last())
    }
}

/// What is left of `s` once one leading plus sign, if present, is taken off.
pub open spec fn unsigned_body(s: Seq<char>) -> Seq<char> {
    if s.len() > 0 && s[0] == '+' {
        s.skip(1)
    } else {
        s
    }
}

/// The number that `s` denotes, if it denotes one that does not exceed `max`:
/// an optional plus sign followed by at least one digit and nothing else.
pub open spec fn parsed_number(s: Seq<char>, max: nat) -> Option<nat> {
    let body = unsigned_body(s);
    if body.len() > 0 && all_digits(body) && decimal_value(body) <= max {
        Some(decimal_value(body))
    } else {
        None
    }
}

/// The shortest decimal spelling of `n`.
pub open spec fn decimal_text(n: nat) -> Seq<char>
    decreases n,
{
    if n < 10 {
        seq![digit_char(n)]
    } else {
        decimal_text(n / 10).push(digit_char(n % 10))
    }
}

/// A spelling produced by `decimal_text` is made of digits and reads back as
/// the number it was made from.
pub proof fn lemma_decimal_text_value(n: nat)
    ensures
        decimal_text(n).len() > 0,
        all_digits(decimal_text(n)),
        decimal_value(decimal_text(n)) == n,
    decreases n,
{
    if n < 10 {
        let t = decimal_text(n);
        assert(t.drop_last() =~= Seq::<char>::empty());
        assert(decimal_value(t.drop_last()) == 0);
    } else {
        lemma_decimal_text_value(n / 10);
        let t = decimal_text(n);
        assert(t.drop_last() =~= decimal_text(n / 10));
        assert(t.last() == digit_char(n % 10));
    }
}

/// Writing a number and reading it back gives the number again, for every
/// bound that admits it.
pub proof fn lemma_parse_decimal_text(n: nat, max: nat)
    requires
        n <= max,
    ensures
        parsed_number(decimal_text(n), max) == Some(n),
{
    lemma_decimal_text_value(n);
    let t = decimal_text(n);
    assert(is_digit(t[0]));
}

/// The value of a digit sequence grows by one decimal place with each digit.
proof fn lemma_decimal_value_push(digits: Seq<char>, c: char)
    ensures
        decimal_value(digits.push(c)) == decimal_value(digits) * 10 + digit_value(c),
{
    assert(digits.push(c).drop_last() =~= digits);
}

/// Reads an unsigned decimal number that must not exceed `max`.
pub fn parse_bounded(s: &str, max: u32) -> (result: Option<u32>)
    ensures
        result == match parsed_number(s@, max as nat) {
            Some(n) => Some(n as u32),
            None => None,
        },
{
    let len: usize = s.unicode_len();
    if len == 0 {
        return None;
    }
    let start: usize = if s.get_char(0) == '+' {
        1
    } else {
        0
    };
    if start == len {
        return None;
    }
    let ghost body = unsigned_body(s@);
    assert(body =~= s@.skip(start as int));
    let mut value: u32 = 0;
    let mut i: usize = start;
    while i < len
        invariant
            start <= i <= len,
            len == s@.len(),
            body == s@.skip(start as int),
            body == unsigned_body(s@),
            all_digits(body.take(i - start)),
            decimal_value(body.take(i - start)) == value,
            value <= max,
        decreases len - i,
    {
        let c: char = s.get_char(i);
        let ghost prefix = body.take(i - start);
        let ghost next = body.take(i + 1 - start);
        assert(next =~= prefix.push(c));
        if !(c >= '0' && c <= '9') {
            assert(!is_digit(body[i - start]));
            return None;
        }
        let d: u32 = (c as u32) - ('0' as u32);
        proof {
            lemma_decimal_value_push(prefix, c);
            lemma_value_monotone(next, body);
        }
        let wide: u64 = (value as u64) * 10 + (d as u64);
        if wide > max as u64 {
            return None;
        }
        value = wide as u32;
        i = i + 1;
    }
    assert(body.take(len - start) =~= body);
    Some(value)
}

/// A prefix of a digit sequence never denotes more than the whole.
proof fn lemma_value_monotone(prefix: Seq<char>, whole: Seq<char>)
    requires
        prefix.len() <= whole.len(),
        prefix =~= whole.take(prefix.len() as int),
    ensures
        decimal_value(prefix) <= decimal_value(whole),
    decreases whole.len() - prefix.len(),
{
    if prefix.len() < whole.len() {
        let longer = whole.take(prefix.len() as int + 1);
        assert(longer =~= prefix.push(whole[prefix.len() as int]));
        lemma_decimal_value_push(prefix, whole[prefix.len() as int]);
        lemma_value_monotone(longer, whole);
    } else {
        assert(prefix =~= whole);
    }
}

/// The one-character text of a number below ten.
fn digit_text(d: u32) -> (result: &'static str)
    requires
        d < 10,
    ensures
        result@ == seq![digit_char(d as nat)],
{
    proof {
        reveal_strlit("0");
        reveal_strlit("1");
        reveal_strlit("2");
        reveal_strlit("3");
        reveal_strlit("4");
        reveal_strlit("5");
        reveal_strlit("6");
        reveal_strlit("7");
        reveal_strlit("8");
        reveal_strlit("9");
    }
    let text: &'static str = if d == 0 {
        "0"
    } else if d == 1 {
        "1"
    } else if d == 2 {
        "2"
    } else if d == 3 {
        "3"
    } else if d == 4 {
        "4"
    } else if d == 5 {
        "5"
    } else if d == 6 {
        "6"
    } else if d == 7 {
        "7"
    } else if d == 8 {
        "8"
    } else {
        "9"
    };
    assert(text@ =~= seq![digit_char(d as nat)]);
    text
}

/// Appends the decimal spelling of `n` to `out`.
pub fn push_decimal(out: &mut String, n: u32)
    ensures
        final(out)@ == old(out)@ + decimal_text(n as nat),
    decreases n,
{
    if n >= 10 {
        push_decimal(out, n / 10);
    }
    out.append(digit_text(n % 10));
    assert(out@ =~= old(out)@ + decimal_text(n as nat));
}

/// The decimal spelling of `n`, without sign or leading zeros.
pub fn to_decimal(n: u32) -> (result: String)
    ensures
        result@ == decimal_text(n as nat),
{
    let mut out = String::new();
    push_decimal(&mut out, n);
    assert(out@ =~= decimal_text(n as nat));
    out
}

} // verus!
