//! The names under which mounted paths are shown.
//!
//! A mounted path is shown under its file name. Where that name is taken, a
//! number in parentheses is appended: `foo.txt`, `foo.txt (1)`, `foo.txt (2)`
//! and so on. Different numbers give different names.

use vstd::prelude::*;

verus! {

/// The digit `0` in ASCII.
pub const ZERO: u8 = 0x30;

/// The decimal digits of `n` in ASCII, most significant first, without
/// leading zeros.
pub open spec fn decimal(n: nat) -> Seq<u8>
    decreases n,
{
    if n < 10 {
        seq![(ZERO + n) as u8]
    } else {
        decimal(n / 10).push((ZERO + n % 10) as u8)
    }
}

/// The number that a string of decimal digits stands for.
pub open spec fn decimal_value(digits: Seq<u8>) -> nat
    decreases digits.len(),
{
    if digits.len() == 0 {
        0
    } else {
        (decimal_value(digits.drop_last()) * 10 + (digits.last() - ZERO)) as nat
    }
}

/// What is appended to a name for the number `n`: a space and `n` in
/// parentheses.
pub open spec fn suffix(n: nat) -> Seq<u8> {
    seq![0x20u8, 0x28u8] + decimal(n) + seq![0x29u8]
}

/// The name tried for `base` at the given number: `base` itself at 0, and
/// `base` with the number's suffix after that.
pub open spec fn display_name(base: Seq<u8>, number: nat) -> Seq<u8> {
    if number == 0 {
        base
    } else {
        base + suffix(number)
    }
}

/// Reading the digits of `n` gives `n` back.
pub proof fn lemma_decimal_value(n: nat)
    ensures
        decimal_value(decimal(n)) == n,
        decimal(n).len() >= 1,
    decreases n,
{
    if n < 10 {
        assert(decimal(n).drop_last() == Seq::<u8>::empty());
        assert(decimal_value(decimal(n).drop_last()) == 0);
    } else {
        lemma_decimal_value(n / 10);
        assert(decimal(n).drop_last() == decimal(n / 10));
    }
}

/// Different numbers give different names for one base.
pub proof fn lemma_display_names_differ(base: Seq<u8>, j: nat, k: nat)
    requires
        j != k,
    ensures
        display_name(base, j) != display_name(base, k),
{
    lemma_decimal_value(j);
    lemma_decimal_value(k);
    if j != 0 && k != 0 {
        let a = display_name(base, j);
        let b = display_name(base, k);
        if a == b {
            let from = (base.len() + 2) as int;
            assert(a.subrange(from, a.len() - 1) == decimal(j));
            assert(b.subrange(from, b.len() - 1) == decimal(k));
        }
    } else if j == 0 {
        assert(display_name(base, k).len() > base.len());
    } else {
        assert(display_name(base, j).len() > base.len());
    }
}

/// Appends the decimal digits of `n` to `out`.
fn push_decimal(out: &mut Vec<u8>, n: u64)
    ensures
        final(out)@ == old(out)@ + decimal(n as nat),
    decreases n,
{
    if n >= 10 {
        push_decimal(out, n / 10);
    }
    let digit: u8 = (n % 10) as u8;
    out.push(ZERO + digit);
    proof {
        if n < 10 {
            assert(final(out)@ == old(out)@ + decimal(n as nat));
        } else {
            assert(old(out)@ + decimal(n as nat) == (old(out)@ + decimal((n / 10) as nat)).push(
                (ZERO + n % 10) as u8,
            ));
        }
    }
}

/// The name tried for `base` at the given number.
pub fn numbered_name(base: &[u8], number: u64) -> (name: Vec<u8>)
    ensures
        name@ == display_name(base@, number as nat),
{
    let mut name = crate::fs::path::copy_bytes(base);
    if number != 0 {
        name.push(0x20u8);
        name.push(0x28u8);
        assert(name@ == base@ + seq![0x20u8, 0x28u8]);
        push_decimal(&mut name, number);
        name.push(0x29u8);
        assert(name@ == base@ + suffix(number as nat));
    }
    name
}

} // verus!
