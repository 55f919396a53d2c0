//! Building messages: numbers as text.

use vstd::prelude::*;
use vstd::string::StringExecFns;

verus! {

/// The character for a digit below sixteen.
pub open spec fn digit_char(d: nat) -> char {
    if d < 10 {
        (0x30 + d) as char
    } else {
        (0x57 + d) as char
    }
}

/// `n` in decimal, without leading zeros.
pub open spec fn decimal(n: nat) -> Seq<char>
    decreases n,
{
    if n < 10 {
        seq![digit_char(n)]
    } else {
        decimal(n / 10).push(digit_char(n % 10))
    }
}

/// `v` in decimal, with a minus sign where it is negative.
pub open spec fn signed_decimal(v: int) -> Seq<char> {
    if v < 0 {
        "-"@ + decimal((-v) as nat)
    } else {
        decimal(v as nat)
    }
}

/// `0x` and the four low-order hexadecimal digits of `n`.
pub open spec fn hex4(n: nat) -> Seq<char> {
    "0x"@ + seq![
        digit_char(n / 4096 % 16),
        digit_char(n / 256 % 16),
        digit_char(n / 16 % 16),
        digit_char(n % 16),
    ]
}

/// A fresh string with the text of `s`.
pub fn text(s: &str) -> (r: String)
    ensures
        r@ == s@,
{
    let mut out = String::new();
    out.append(s);
    assert(out@ =~= s@);
    out
}

fn push_digit(out: &mut String, d: u8)
    requires
        d < 16,
    ensures
        final(out)@ == old(out)@.push(digit_char(d as nat)),
{
    proof {
        reveal_strlit("0");
        reveal_strlit("1");
        reveal_strlit("2");
        reveal_strlit("3");
        reveal_strlit("4");
        reveal_strlit("5");
        reveal_strlit("6");
        reveal_strlit("7");
        reveal_strlit("8");
        reveal_strlit("9");
        reveal_strlit("a");
        reveal_strlit("b");
        reveal_strlit("c");
        reveal_strlit("d");
        reveal_strlit("e");
        reveal_strlit("f");
    }
    let ghost before = out@;
    match d {
        0 => out.append("0"),
        1 => out.append("1"),
        2 => out.append("2"),
        3 => out.append("3"),
        4 => out.append("4"),
        5 => out.append("5"),
        6 => out.append("6"),
        7 => out.append("7"),
        8 => out.append("8"),
        9 => out.append("9"),
        10 => out.append("a"),
        11 => out.append("b"),
        12 => out.append("c"),
        13 => out.append("d"),
        14 => out.append("e"),
        _ => out.append("f"),
    }
    assert(out@ =~= before.push(digit_char(d as nat)));
}

/// Appends `n` in decimal.
pub fn push_decimal(out: &mut String, n: u64)
    ensures
        final(out)@ == old(out)@ + decimal(n as nat),
    decreases n,
{
    let ghost before = out@;
    if n >= 10 {
        push_decimal(out, n / 10);
    }
    push_digit(out, (n % 10) as u8);
    assert(out@ =~= before + decimal(n as nat));
}

/// Appends `v` in decimal.
pub fn push_signed(out: &mut String, v: i64)
    ensures
        final(out)@ == old(out)@ + signed_decimal(v as int),
{
    let ghost before = out@;
    if v < 0 {
        out.append("-");
        let magnitude: u64 = (-(v as i128)) as u64;
        push_decimal(out, magnitude);
        assert(out@ =~= before + signed_decimal(v as int));
    } else {
        push_decimal(out, v as u64);
    }
}

/// Appends `n` as `0x` and four hexadecimal digits.
pub fn push_hex4(out: &mut String, n: u16)
    ensures
        final(out)@ == old(out)@ + hex4(n as nat),
{
    let ghost before = out@;
    out.append("0x");
    push_digit(out, (n / 4096 % 16) as u8);
    push_digit(out, (n / 256 % 16) as u8);
    push_digit(out, (n / 16 % 16) as u8);
    push_digit(out, (n % 16) as u8);
    assert(out@ =~= before + hex4(n as nat));
}

/// A number is written digit by digit, the highest first and never a zero too
/// many; a negative one with a minus sign in front.
pub proof fn law_numbers_are_written_in_decimal(n: nat, v: int)
    ensures
        n < 10 ==> decimal(n) == seq![(48 + n) as char],
        n >= 10 ==> decimal(n) == decimal(n / 10).push((48 + n % 10) as char),
        n > 0 ==> decimal(n)[0] != '0',
        v >= 0 ==> signed_decimal(v) == decimal(v as nat),
        v < 0 ==> signed_decimal(v) == seq!['-'] + decimal((-v) as nat),
    decreases n,
{
    if n >= 10 {
        law_numbers_are_written_in_decimal(n / 10, v);
        assert(decimal(n)[0] == decimal(n / 10)[0]) by {
            lemma_decimal_len(n / 10);
        }
    } else if n > 0 {
        assert((48 + n) as char != '0');
    }
    reveal_strlit("-");
    assert("-"@ =~= seq!['-']);
}

proof fn lemma_decimal_len(n: nat)
    ensures
        decimal(n).len() > 0,
    decreases n,
{
    if n >= 10 {
        lemma_decimal_len(n / 10);
    }
}

/// The digits from ten on are written as letters from `a` on, and hexadecimal
/// numbers as four digits behind `0x`.
pub proof fn law_hexadecimal_has_four_digits(n: nat)
    ensures
        hex4(n).len() == 6,
        hex4(n)[0] == '0' && hex4(n)[1] == 'x',
        n < 10 ==> hex4(n)[5] == (48 + n) as char && hex4(n)[2] == '0',
        10 <= n < 16 ==> hex4(n)[5] == (87 + n) as char && hex4(n)[4] == '0',
        n < 16 ==> hex4(16 * n)[4] == hex4(n)[5],
        n < 16 ==> hex4(256 * n)[3] == hex4(n)[5],
        n < 16 ==> hex4(4096 * n)[2] == hex4(n)[5],
{
    reveal_strlit("0x");
}

} // verus!
