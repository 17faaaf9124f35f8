//! Lowercase hexadecimal text of an unsigned number.

use vstd::prelude::*;
use vstd::string::StringExecFns;

verus! {

/// The character for one hexadecimal digit, `0` to `9` and then `a` to `f`.
pub open spec fn hex_digit(digit: nat) -> char
    recommends
        digit < 16,
{
    seq![
        '0',
        '1',
        '2',
        '3',
        '4',
        '5',
        '6',
        '7',
        '8',
        '9',
        'a',
        'b',
        'c',
        'd',
        'e',
        'f',
    ][digit as int]
}

/// The number in base 16, most significant digit first, without a prefix and
/// without leading zeros; zero is the single digit `0`.
pub open spec fn lower_hex(n: nat) -> Seq<char>
    decreases n,
{
    if n < 16 {
        seq![hex_digit(n)]
    } else {
        lower_hex(n / 16).push(hex_digit(n % 16))
    }
}

/// The text of one hexadecimal digit.
fn digit_text(digit: u64) -> (text: &'static str)
    requires
        digit < 16,
    ensures
        text@ == seq![hex_digit(digit as nat)],
{
    proof {
        reveal_strlit("0");
        reveal_strlit("1");
        reveal_strlit("2");
        reveal_strlit("3");
        reveal_strlit("4");
        reveal_strlit("5");
        reveal_strlit("6");
        reveal_strlit("7");
        reveal_strlit("8");
        reveal_strlit("9");
        reveal_strlit("a");
        reveal_strlit("b");
        reveal_strlit("c");
        reveal_strlit("d");
        reveal_strlit("e");
        reveal_strlit("f");
    }
    let text = if digit == 0 {
        "0"
    } else if digit == 1 {
        "1"
    } else if digit == 2 {
        "2"
    } else if digit == 3 {
        "3"
    } else if digit == 4 {
        "4"
    } else if digit == 5 {
        "5"
    } else if digit == 6 {
        "6"
    } else if digit == 7 {
        "7"
    } else if digit == 8 {
        "8"
    } else if digit == 9 {
        "9"
    } else if digit == 10 {
        "a"
    } else if digit == 11 {
        "b"
    } else if digit == 12 {
        "c"
    } else if digit == 13 {
        "d"
    } else if digit == 14 {
        "e"
    } else {
        "f"
    };
    assert(text@ =~= seq![hex_digit(digit as nat)]);
    text
}

/// Appends the hexadecimal digits of `n` to `out`.
fn push_lower_hex(n: u64, out: &mut String)
    ensures
        final(out)@ == old(out)@ + lower_hex(n as nat),
    decreases n,
{
    if n >= 16 {
        push_lower_hex(n / 16, out);
    }
    out.append(digit_text(n % 16));
    assert(out@ =~= old(out)@ + lower_hex(n as nat));
}

/// Renders `n` in lowercase hexadecimal.
pub fn to_lower_hex(n: u64) -> (text: String)
    ensures
        text@ == lower_hex(n as nat),
{
    let mut text = String::new();
    push_lower_hex(n, &mut text);
    assert(text@ =~= lower_hex(n as nat));
    text
}

/// Hexadecimal text has at least one digit, and more than one only if the
/// first is not `0`.
pub proof fn lemma_lower_hex_has_no_leading_zero(n: nat)
    ensures
        lower_hex(n).len() >= 1,
        lower_hex(n).len() > 1 ==> lower_hex(n)[0] != '0',
        n == 0 <==> lower_hex(n) == seq!['0'],
    decreases n,
{
    if n >= 16 {
        lemma_lower_hex_has_no_leading_zero(n / 16);
        let front = lower_hex(n / 16);
        assert(lower_hex(n)[0] == front[0]);
        if front.len() == 1 {
            assert(n / 16 != 0);
            assert(front != seq!['0']);
            assert(front =~= seq![front[0]]);
        }
        assert(lower_hex(n).len() == front.len() + 1);
    } else {
        assert(lower_hex(n) =~= seq![hex_digit(n)]);
        if n != 0 {
            assert(lower_hex(n)[0] != '0');
        }
    }
}

} // verus!
