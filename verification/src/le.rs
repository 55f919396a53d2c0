//! Little-endian integers as byte sequences.

use vstd::prelude::*;

verus! {

/// `256` to the `n`-th power.
pub open spec fn pow256(n: nat) -> nat
    decreases n,
{
    if n == 0 {
        1
    } else {
        256 * pow256((n - 1) as nat)
    }
}

/// The `n` low-order base-256 digits of `v`, least significant first.
pub open spec fn le_bytes(v: nat, n: nat) -> Seq<u8>
    decreases n,
{
    if n == 0 {
        Seq::empty()
    } else {
        seq![(v % 256) as u8] + le_bytes(v / 256, (n - 1) as nat)
    }
}

/// The number whose base-256 digits, least significant first, are `s`.
pub open spec fn le_value(s: Seq<u8>) -> nat
    decreases s.len(),
{
    if s.len() == 0 {
        0
    } else {
        s[0] as nat + 256 * le_value(s.skip(1))
    }
}

pub broadcast proof fn lemma_le_bytes_len(v: nat, n: nat)
    ensures
        (#[trigger] le_bytes(v, n)).len() == n,
    decreases n,
{
    if n > 0 {
        lemma_le_bytes_len(v / 256, (n - 1) as nat);
    }
}

pub proof fn lemma_le_value_bound(s: Seq<u8>)
    ensures
        le_value(s) < pow256(s.len()),
    decreases s.len(),
{
    if s.len() > 0 {
        lemma_le_value_bound(s.skip(1));
    }
}

/// Writing a number that fits and reading it back gives the number.
pub proof fn law_le_value_of_bytes(v: nat, n: nat)
    requires
        v < pow256(n),
    ensures
        le_value(le_bytes(v, n)) == v,
    decreases n,
{
    lemma_le_bytes_len(v, n);
    if n > 0 {
        let tail = le_bytes(v / 256, (n - 1) as nat);
        lemma_le_bytes_len(v / 256, (n - 1) as nat);
        assert(le_bytes(v, n).skip(1) =~= tail);
        assert(v / 256 < pow256((n - 1) as nat));
        law_le_value_of_bytes(v / 256, (n - 1) as nat);
    }
}

/// Reading digits and writing the number back gives the digits.
pub proof fn law_le_bytes_of_value(s: Seq<u8>)
    ensures
        le_bytes(le_value(s), s.len()) == s,
    decreases s.len(),
{
    lemma_le_bytes_len(le_value(s), s.len());
    if s.len() > 0 {
        let rest = s.skip(1);
        law_le_bytes_of_value(rest);
        let v = le_value(s);
        assert(v % 256 == s[0] as nat);
        assert(v / 256 == le_value(rest));
        assert(le_bytes(v, s.len()) =~= seq![s[0]] + rest);
        assert(seq![s[0]] + rest =~= s);
    } else {
        assert(le_bytes(le_value(s), 0) =~= s);
    }
}

/// Numbers that fit in `n` digits and have the same digits are equal.
pub proof fn lemma_le_bytes_injective(a: nat, b: nat, n: nat)
    requires
        a < pow256(n),
        b < pow256(n),
        le_bytes(a, n) == le_bytes(b, n),
    ensures
        a == b,
{
    law_le_value_of_bytes(a, n);
    law_le_value_of_bytes(b, n);
}

pub proof fn lemma_pow256_values()
    ensures
        pow256(0) == 1,
        pow256(1) == 0x100,
        pow256(2) == 0x1_0000,
        pow256(4) == 0x1_0000_0000,
        pow256(8) == 0x1_0000_0000_0000_0000,
        pow256(16) == 0x1_0000_0000_0000_0000_0000_0000_0000_0000,
{
    reveal_with_fuel(pow256, 17);
}

/// Appends the `n` low-order digits of `v`.
pub fn put_le(out: &mut Vec<u8>, v: u128, n: usize)
    requires
        n <= 16,
    ensures
        final(out)@ == old(out)@ + le_bytes(v as nat, n as nat),
{
    let mut rest: u128 = v;
    let mut i: usize = 0;
    let ghost start = out@;
    assert(start + le_bytes(v as nat, n as nat) =~= out@ + le_bytes(rest as nat, n as nat));
    while i < n
        invariant
            i <= n <= 16,
            start + le_bytes(v as nat, n as nat) == out@ + le_bytes(rest as nat, (n - i) as nat),
        decreases n - i,
    {
        let ghost before = out@;
        let ghost r0 = rest as nat;
        let digit: u8 = (rest % 256) as u8;
        out.push(digit);
        rest = rest / 256;
        i = i + 1;
        proof {
            assert(le_bytes(r0, (n - i + 1) as nat) == seq![(r0 % 256) as u8] + le_bytes(
                r0 / 256,
                (n - i) as nat,
            ));
            assert(before + (seq![digit] + le_bytes(r0 / 256, (n - i) as nat)) =~= out@ + le_bytes(
                rest as nat,
                (n - i) as nat,
            ));
        }
    }
    assert(out@ + le_bytes(rest as nat, 0) =~= out@);
}

/// Reads all of `s` as one number.
pub fn get_le(s: &[u8]) -> (v: u128)
    requires
        s@.len() <= 16,
    ensures
        v as nat == le_value(s@),
{
    let mut i: usize = s.len();
    let mut v: u128 = 0;
    assert(s@.skip(i as int) =~= Seq::<u8>::empty());
    proof {
        lemma_pow256_values();
    }
    while i > 0
        invariant
            i <= s@.len() <= 16,
            v as nat == le_value(s@.skip(i as int)),
        decreases i,
    {
        i = i - 1;
        proof {
            let t = s@.skip(i as int);
            assert(t.skip(1) =~= s@.skip(i + 1));
            assert(t[0] == s@[i as int]);
            lemma_le_value_bound(t);
            lemma_pow256_monotone(t.len(), 16);
            lemma_pow256_values();
        }
        v = v * 256 + s[i] as u128;
    }
    assert(s@.skip(0) =~= s@);
    v
}

proof fn lemma_pow256_monotone(a: nat, b: nat)
    requires
        a <= b,
    ensures
        pow256(a) <= pow256(b),
    decreases b,
{
    if a < b {
        lemma_pow256_monotone(a, (b - 1) as nat);
    }
}

/// The low byte comes first: byte `i` is the `i`-th digit to the base 256, and a
/// number of one byte is that byte.
pub proof fn law_low_byte_comes_first(v: nat, n: nat, i: nat)
    requires
        i < n,
    ensures
        le_bytes(v, n).len() == n,
        le_bytes(v, n)[i as int] == (v / pow256(i)) % 256,
        v < 256 ==> le_bytes(v, n)[0] == v,
        v < 256 && i > 0 ==> le_bytes(v, n)[i as int] == 0,
        le_value(le_bytes(v, n)) % 256 == v % 256,
    decreases i,
{
    lemma_le_bytes_len(v, n);
    lemma_le_bytes_len(v / 256, (n - 1) as nat);
    assert(le_bytes(v, n).skip(1) =~= le_bytes(v / 256, (n - 1) as nat));
    if i > 0 {
        law_low_byte_comes_first(v / 256, (n - 1) as nat, (i - 1) as nat);
        let p = pow256((i - 1) as nat);
        lemma_pow256_positive((i - 1) as nat);
        assert(le_bytes(v, n)[i as int] == le_bytes(v, n).skip(1)[i - 1]);
        assert((v / 256) / p == v / (256 * p)) by {
            vstd::arithmetic::div_mod::lemma_div_denominator(v as int, 256, p as int);
        }
        if v < 256 {
            assert(v / 256 == 0);
            assert(0nat / p == 0) by (nonlinear_arith)
                requires
                    p >= 1,
            ;
        }
    } else {
        assert(v / 1 == v);
    }
}

proof fn lemma_pow256_positive(n: nat)
    ensures
        pow256(n) >= 1,
    decreases n,
{
    if n > 0 {
        lemma_pow256_positive((n - 1) as nat);
    }
}

} // verus!
