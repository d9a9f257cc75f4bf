//! Decimal text of integers and the indentation used by the renderer.
use vstd::prelude::*;
use vstd::string::{StrSliceExecFns, StringExecFns};

verus! {

/// The character of a decimal digit.
pub open spec fn digit(d: int) -> char {
    if d == 0 {
        '0'
    } else if d == 1 {
        '1'
    } else if d == 2 {
        '2'
    } else if d == 3 {
        '3'
    } else if d == 4 {
        '4'
    } else if d == 5 {
        '5'
    } else if d == 6 {
        '6'
    } else if d == 7 {
        '7'
    } else if d == 8 {
        '8'
    } else {
        '9'
    }
}

/// The decimal numeral of `n`, without leading zeros.
pub open spec fn decimal(n: nat) -> Seq<char>
    decreases n,
{
    if n < 10 {
        seq![digit(n as int)]
    } else {
        decimal(n / 10).push(digit((n % 10) as int))
    }
}

/// The decimal numeral of a signed integer: a minus sign before the numeral
/// of the magnitude where `i` is negative.
pub open spec fn signed_decimal(i: int) -> Seq<char> {
    if i < 0 {
        seq!['-'] + decimal((-i) as nat)
    } else {
        decimal(i as nat)
    }
}

/// `levels` levels of indentation, four spaces each.
pub open spec fn indentation(levels: nat) -> Seq<char> {
    Seq::new(4 * levels, |i: int| ' ')
}

fn digit_str(d: u64) -> (s: &'static str)
    requires
        d < 10,
    ensures
        s@ == seq![digit(d as int)],
{
    proof {
        reveal_strlit("0");
        reveal_strlit("1");
        reveal_strlit("2");
        reveal_strlit("3");
        reveal_strlit("4");
        reveal_strlit("5");
        reveal_strlit("6");
        reveal_strlit("7");
        reveal_strlit("8");
        reveal_strlit("9");
    }
    let s = if d == 0 {
        "0"
    } else if d == 1 {
        "1"
    } else if d == 2 {
        "2"
    } else if d == 3 {
        "3"
    } else if d == 4 {
        "4"
    } else if d == 5 {
        "5"
    } else if d == 6 {
        "6"
    } else if d == 7 {
        "7"
    } else if d == 8 {
        "8"
    } else {
        "9"
    };
    assert(s@ =~= seq![digit(d as int)]);
    s
}

/// Appends the decimal numeral of `n` to `buffer`.
pub fn push_decimal(buffer: &mut String, n: u64)
    ensures
        final(buffer)@ == old(buffer)@ + decimal(n as nat),
    decreases n,
{
    if n >= 10 {
        push_decimal(buffer, n / 10);
    }
    buffer.append(digit_str(n % 10));
    assert(buffer@ =~= old(buffer)@ + decimal(n as nat));
}

/// The decimal numeral of `n` as a string.
pub fn decimal_string(n: u64) -> (s: String)
    ensures
        s@ == decimal(n as nat),
{
    let mut s = String::new();
    push_decimal(&mut s, n);
    assert(s@ =~= decimal(n as nat));
    s
}

/// Appends the decimal numeral of the signed integer `i` to `buffer`.
pub fn push_signed_decimal(buffer: &mut String, i: i64)
    ensures
        final(buffer)@ == old(buffer)@ + signed_decimal(i as int),
{
    if i < 0 {
        proof {
            reveal_strlit("-");
        }
        buffer.append("-");
        let magnitude: u64 = if i == i64::MIN {
            9223372036854775808u64
        } else {
            (-i) as u64
        };
        push_decimal(buffer, magnitude);
        assert(buffer@ =~= old(buffer)@ + signed_decimal(i as int));
    } else {
        push_decimal(buffer, i as u64);
    }
}

/// Appends `levels` levels of indentation to `buffer`.
pub fn push_indentation(buffer: &mut String, levels: usize)
    ensures
        final(buffer)@ == old(buffer)@ + indentation(levels as nat),
{
    let mut done: usize = 0;
    proof {
        assert(buffer@ =~= old(buffer)@ + indentation(0));
    }
    while done < levels
        invariant
            done <= levels,
            buffer@ == old(buffer)@ + indentation(done as nat),
        decreases levels - done,
    {
        proof {
            reveal_strlit("    ");
        }
        buffer.append("    ");
        done = done + 1;
        assert(buffer@ =~= old(buffer)@ + indentation(done as nat));
    }
}

/// One more level of indentation is four more spaces.
pub proof fn lemma_indentation_step(levels: nat)
    ensures
        indentation(levels + 1) == indentation(levels) + "    "@,
{
    reveal_strlit("    ");
    assert(indentation(levels + 1) =~= indentation(levels) + "    "@);
}

/// The empty literal holds no character.
pub proof fn lemma_empty_literal()
    ensures
        ""@ == Seq::<char>::empty(),
{
    reveal_strlit("");
    assert(""@ =~= Seq::<char>::empty());
}

/// The value of a decimal digit, for a character that is one.
pub open spec fn digit_value(c: char) -> Option<nat> {
    if c == '0' {
        Some(0)
    } else if c == '1' {
        Some(1)
    } else if c == '2' {
        Some(2)
    } else if c == '3' {
        Some(3)
    } else if c == '4' {
        Some(4)
    } else if c == '5' {
        Some(5)
    } else if c == '6' {
        Some(6)
    } else if c == '7' {
        Some(7)
    } else if c == '8' {
        Some(8)
    } else if c == '9' {
        Some(9)
    } else {
        None
    }
}

/// The number that the first `n` characters of `s` spell in decimal digits;
/// none where one of them is no digit.
pub open spec fn numeral_value(s: Seq<char>, n: nat) -> Option<nat>
    decreases n,
{
    if n == 0 || n > s.len() {
        Some(0)
    } else {
        match (numeral_value(s, (n - 1) as nat), digit_value(s[n - 1])) {
            (Some(v), Some(d)) => Some(10 * v + d),
            _ => None,
        }
    }
}

/// The identifier that a marker attribute holds: the number that `s`
/// spells, where `s` is a non-empty string of decimal digits and the number
/// fits.
pub open spec fn parsed_u32(s: Seq<char>) -> Option<u32> {
    if s.len() == 0 {
        None
    } else {
        match numeral_value(s, s.len()) {
            Some(v) => if v <= u32::MAX {
                Some(v as u32)
            } else {
                None
            },
            None => None,
        }
    }
}

fn digit_of(c: char) -> (d: Option<u64>)
    ensures
        match d {
            Some(v) => digit_value(c) == Some(v as nat) && v < 10,
            None => digit_value(c) is None,
        },
{
    if c == '0' {
        Some(0)
    } else if c == '1' {
        Some(1)
    } else if c == '2' {
        Some(2)
    } else if c == '3' {
        Some(3)
    } else if c == '4' {
        Some(4)
    } else if c == '5' {
        Some(5)
    } else if c == '6' {
        Some(6)
    } else if c == '7' {
        Some(7)
    } else if c == '8' {
        Some(8)
    } else if c == '9' {
        Some(9)
    } else {
        None
    }
}

/// A numeral that has a value has one at every length, and its value does
/// not shrink as digits are added.
pub proof fn lemma_numeral_value_grows(s: Seq<char>, k: nat, n: nat)
    requires
        k <= n <= s.len(),
    ensures
        numeral_value(s, k) is None ==> numeral_value(s, n) is None,
        numeral_value(s, n) is Some ==> numeral_value(s, k) is Some && numeral_value(s, k)->0
            <= numeral_value(s, n)->0,
    decreases n,
{
    if k < n {
        lemma_numeral_value_grows(s, k, (n - 1) as nat);
    }
}

/// Reads an identifier from the text of a marker attribute.
pub fn parse_u32(text: &str) -> (id: Option<u32>)
    ensures
        id == parsed_u32(text@),
{
    let len = text.unicode_len();
    if len == 0 {
        return None;
    }
    let mut value: u64 = 0;
    let mut i: usize = 0;
    while i < len
        invariant
            i <= len,
            len == text@.len(),
            value <= u32::MAX,
            numeral_value(text@, i as nat) == Some(value as nat),
        decreases len - i,
    {
        match digit_of(text.get_char(i)) {
            Some(d) => {
                let next = value * 10 + d;
                if next > 0xffff_ffff {
                    proof {
                        assert(numeral_value(text@, (i + 1) as nat) == Some(next as nat));
                        lemma_numeral_value_grows(text@, (i + 1) as nat, len as nat);
                    }
                    return None;
                }
                value = next;
            },
            None => {
                proof {
                    assert(numeral_value(text@, (i + 1) as nat) is None);
                    lemma_numeral_value_grows(text@, (i + 1) as nat, len as nat);
                }
                return None;
            },
        }
        i = i + 1;
    }
    Some(value as u32)
}

/// Reading what `decimal` wrote gives the number back.
pub proof fn lemma_decimal_reads_back(n: nat)
    ensures
        decimal(n).len() > 0,
        numeral_value(decimal(n), decimal(n).len()) == Some(n),
        n <= u32::MAX ==> parsed_u32(decimal(n)) == Some(n as u32),
    decreases n,
{
    if n < 10 {
        assert(decimal(n) =~= seq![digit(n as int)]);
        assert(numeral_value(decimal(n), 0) == Some(0nat));
        assert(digit_value(digit(n as int)) == Some(n));
    } else {
        lemma_decimal_reads_back(n / 10);
        let shorter = decimal(n / 10);
        let whole = decimal(n);
        assert(whole == shorter.push(digit((n % 10) as int)));
        lemma_numeral_value_prefix(shorter, whole, shorter.len());
        assert(digit_value(digit((n % 10) as int)) == Some(n % 10));
        assert(whole[whole.len() - 1] == digit((n % 10) as int));
    }
}

/// The value of a prefix depends on that prefix alone.
proof fn lemma_numeral_value_prefix(a: Seq<char>, b: Seq<char>, n: nat)
    requires
        n <= a.len(),
        n <= b.len(),
        forall|i: int| 0 <= i < n ==> a[i] == b[i],
    ensures
        numeral_value(a, n) == numeral_value(b, n),
    decreases n,
{
    if n > 0 {
        lemma_numeral_value_prefix(a, b, (n - 1) as nat);
    }
}

} // verus!
