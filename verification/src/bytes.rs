//! Fixed-width integers as bytes.
//!
//! Integers travel least significant byte first, except the sixteen bytes of
//! an identifier, which travel most significant byte first. A list travels as
//! the number of its records, a 64-bit integer, and the records one after
//! another, all of one width.

use crate::error::DecodeError;
use vstd::prelude::*;

verus! {

/// The number of values that `n` bytes can hold: 256 to the power `n`.
pub open spec fn radix(n: nat) -> nat
    decreases n,
{
    if n == 0 {
        1
    } else {
        256 * radix((n - 1) as nat)
    }
}

/// The `n` low bytes of `x`, least significant first.
pub open spec fn le_bytes(x: nat, n: nat) -> Seq<u8>
    decreases n,
{
    if n == 0 {
        Seq::empty()
    } else {
        seq![(x % 256) as u8] + le_bytes(x / 256, (n - 1) as nat)
    }
}

/// The number that `s` spells, least significant byte first.
pub open spec fn le_value(s: Seq<u8>) -> nat
    decreases s.len(),
{
    if s.len() == 0 {
        0
    } else {
        s[0] as nat + 256 * le_value(s.drop_first())
    }
}

/// The `n` low bytes of `x`, most significant first.
pub open spec fn be_bytes(x: nat, n: nat) -> Seq<u8>
    decreases n,
{
    if n == 0 {
        Seq::empty()
    } else {
        be_bytes(x / 256, (n - 1) as nat).push((x % 256) as u8)
    }
}

/// The number that `s` spells, most significant byte first.
pub open spec fn be_value(s: Seq<u8>) -> nat
    decreases s.len(),
{
    if s.len() == 0 {
        0
    } else {
        256 * be_value(s.drop_last()) + s.last() as nat
    }
}

/// The powers of 256 that bound the integer types of the wire format.
pub proof fn lemma_radix_values()
    ensures
        radix(4) == 0x1_0000_0000,
        radix(8) == 0x1_0000_0000_0000_0000,
        radix(16) == 0x1_0000_0000_0000_0000_0000_0000_0000_0000,
{
    reveal_with_fuel(radix, 17);
}

/// `le_bytes(x, n)` has `n` bytes.
pub proof fn lemma_le_bytes_len(x: nat, n: nat)
    ensures
        le_bytes(x, n).len() == n,
    decreases n,
{
    if n > 0 {
        lemma_le_bytes_len(x / 256, (n - 1) as nat);
    }
}

/// A byte string of length `n` spells a number below `radix(n)`.
pub proof fn lemma_le_value_bound(s: Seq<u8>)
    ensures
        le_value(s) < radix(s.len()),
    decreases s.len(),
{
    if s.len() > 0 {
        lemma_le_value_bound(s.drop_first());
    }
}

/// Reading back the `n` bytes of a number below `radix(n)` gives the number.
pub proof fn lemma_le_value_of_bytes(x: nat, n: nat)
    requires
        x < radix(n),
    ensures
        le_value(le_bytes(x, n)) == x,
    decreases n,
{
    if n > 0 {
        let rest = le_bytes(x / 256, (n - 1) as nat);
        lemma_le_value_of_bytes(x / 256, (n - 1) as nat);
        assert(le_bytes(x, n).drop_first() =~= rest);
    }
}

/// Writing the number that a byte string spells gives the byte string.
pub proof fn lemma_le_bytes_of_value(s: Seq<u8>)
    ensures
        le_bytes(le_value(s), s.len()) == s,
    decreases s.len(),
{
    if s.len() > 0 {
        lemma_le_bytes_of_value(s.drop_first());
    }
}

/// `be_bytes(x, n)` has `n` bytes.
pub proof fn lemma_be_bytes_len(x: nat, n: nat)
    ensures
        be_bytes(x, n).len() == n,
    decreases n,
{
    if n > 0 {
        lemma_be_bytes_len(x / 256, (n - 1) as nat);
    }
}

/// A byte string of length `n` spells a number below `radix(n)`.
pub proof fn lemma_be_value_bound(s: Seq<u8>)
    ensures
        be_value(s) < radix(s.len()),
    decreases s.len(),
{
    if s.len() > 0 {
        lemma_be_value_bound(s.drop_last());
    }
}

/// Reading back the `n` bytes of a number below `radix(n)` gives the number.
pub proof fn lemma_be_value_of_bytes(x: nat, n: nat)
    requires
        x < radix(n),
    ensures
        be_value(be_bytes(x, n)) == x,
    decreases n,
{
    if n > 0 {
        let rest = be_bytes(x / 256, (n - 1) as nat);
        lemma_be_value_of_bytes(x / 256, (n - 1) as nat);
        assert(be_bytes(x, n).drop_last() =~= rest);
    }
}

/// Writing the number that a byte string spells gives the byte string.
pub proof fn lemma_be_bytes_of_value(s: Seq<u8>)
    ensures
        be_bytes(be_value(s), s.len()) == s,
    decreases s.len(),
{
    if s.len() > 0 {
        lemma_be_bytes_of_value(s.drop_last());
    }
}

/// `radix` grows with the number of bytes.
pub proof fn lemma_radix_grows(m: nat, n: nat)
    requires
        m <= n,
    ensures
        0 < radix(m) <= radix(n),
    decreases n,
{
    if n > 0 {
        if m < n {
            lemma_radix_grows(m, (n - 1) as nat);
        } else {
            lemma_radix_grows((m - 1) as nat, (n - 1) as nat);
        }
    }
}

/// Appends the `n` low bytes of `x`, least significant first.
pub(crate) fn put_le(out: &mut Vec<u8>, x: u128, n: usize)
    ensures
        final(out)@ == old(out)@ + le_bytes(x as nat, n as nat),
{
    let mut rest: u128 = x;
    let mut i: usize = 0;
    while i < n
        invariant
            i <= n,
            out@ + le_bytes(rest as nat, (n - i) as nat) == old(out)@ + le_bytes(
                x as nat,
                n as nat,
            ),
        decreases n - i,
    {
        out.push((rest % 256) as u8);
        rest = rest / 256;
        i = i + 1;
    }
}

/// Appends the `n` low bytes of `x`, most significant first.
pub(crate) fn put_be(out: &mut Vec<u8>, x: u128, n: usize)
    ensures
        final(out)@ == old(out)@ + be_bytes(x as nat, n as nat),
    decreases n,
{
    if n > 0 {
        put_be(out, x / 256, n - 1);
        out.push((x % 256) as u8);
    }
}

/// The number that the `n` bytes from `at` on spell, least significant byte
/// first.
pub(crate) fn get_le(bytes: &[u8], at: usize, n: usize) -> (x: u128)
    requires
        n <= 16,
        at + n <= bytes.len(),
    ensures
        x == le_value(bytes@.subrange(at as int, at + n)),
{
    let mut x: u128 = 0;
    let mut i: usize = n;
    while i > 0
        invariant
            i <= n <= 16,
            at + n <= bytes.len(),
            x == le_value(bytes@.subrange(at + i, at + n)),
        decreases i,
    {
        i = i - 1;
        proof {
            let higher = bytes@.subrange(at + i + 1, at + n);
            lemma_le_value_bound(higher);
            lemma_radix_grows(higher.len() + 1, 16);
            lemma_radix_values();
            assert(bytes@.subrange(at + i, at + n).drop_first() =~= higher);
        }
        x = x * 256 + bytes[at + i] as u128;
    }
    x
}

/// The number that the `n` bytes from `at` on spell, most significant byte
/// first.
pub(crate) fn get_be(bytes: &[u8], at: usize, n: usize) -> (x: u128)
    requires
        n <= 16,
        at + n <= bytes.len(),
    ensures
        x == be_value(bytes@.subrange(at as int, at + n)),
{
    let mut x: u128 = 0;
    let mut i: usize = 0;
    while i < n
        invariant
            i <= n <= 16,
            at + n <= bytes.len(),
            x == be_value(bytes@.subrange(at as int, at + i)),
        decreases n - i,
    {
        proof {
            let lower = bytes@.subrange(at as int, at + i);
            lemma_be_value_bound(lower);
            lemma_radix_grows(lower.len() + 1, 16);
            lemma_radix_values();
            assert(bytes@.subrange(at as int, at + i + 1).drop_last() =~= lower);
        }
        x = x * 256 + bytes[at + i] as u128;
        i = i + 1;
    }
    x
}

/// The number of records that a list announces, where the list holds exactly
/// that many records of `width` bytes after the count.
pub open spec fn parse_count(b: Seq<u8>, width: int) -> Result<nat, DecodeError> {
    if b.len() < 8 {
        Err(DecodeError::Truncated)
    } else {
        let n = le_value(b.subrange(0, 8));
        if b.len() < 8 + width * n {
            Err(DecodeError::Truncated)
        } else if b.len() > 8 + width * n {
            Err(DecodeError::TrailingBytes)
        } else {
            Ok(n)
        }
    }
}

/// Reads the count of a list of records of `width` bytes.
pub(crate) fn get_count(bytes: &[u8], width: usize) -> (r: Result<usize, DecodeError>)
    requires
        0 < width <= 32,
    ensures
        match r {
            Ok(n) => parse_count(bytes@, width as int) == Ok::<nat, DecodeError>(n as nat),
            Err(e) => parse_count(bytes@, width as int) == Err::<nat, DecodeError>(e),
        },
{
    if bytes.len() < 8 {
        return Err(DecodeError::Truncated);
    }
    let n: u128 = get_le(bytes, 0, 8);
    let rest: u128 = (bytes.len() - 8) as u128;
    proof {
        lemma_le_value_bound(bytes@.subrange(0, 8));
        lemma_radix_values();
        assert(n * width <= 0xffff_ffff_ffff_ffff * 32) by (nonlinear_arith)
            requires
                0 <= n <= 0xffff_ffff_ffff_ffff,
                0 < width <= 32,
        ;
    }
    let need: u128 = n * (width as u128);
    if rest < need {
        Err(DecodeError::Truncated)
    } else if rest > need {
        Err(DecodeError::TrailingBytes)
    } else {
        proof {
            assert(n <= n * width) by (nonlinear_arith)
                requires
                    0 <= n,
                    0 < width,
            ;
        }
        Ok(n as usize)
    }
}

} // verus!
