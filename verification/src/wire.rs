//! Little-endian fixed-width numerals, the building block of every encoding
//! in this crate.

use vstd::prelude::*;

verus! {

/// `256` to the power `n`.
pub open spec fn pow256(n: nat) -> nat
    decreases n,
{
    if n == 0 {
        1
    } else {
        256 * pow256((n - 1) as nat)
    }
}

/// The `n` low base-256 digits of `x`, least significant first.
pub open spec fn le_bytes(x: nat, n: nat) -> Seq<u8>
    decreases n,
{
    if n == 0 {
        Seq::empty()
    } else {
        seq![(x % 256) as u8] + le_bytes(x / 256, (n - 1) as nat)
    }
}

/// The number whose base-256 digits, least significant first, are `bytes`.
pub open spec fn le_value(bytes: Seq<u8>) -> nat
    decreases bytes.len(),
{
    if bytes.len() == 0 {
        0
    } else {
        bytes[0] as nat + 256 * le_value(bytes.subrange(1, bytes.len() as int))
    }
}

/// The powers of 256 that the widths in use need.
pub proof fn lemma_pow256_values()
    ensures
        pow256(0) == 1,
        pow256(1) == 0x100,
        pow256(2) == 0x1_0000,
        pow256(4) == 0x1_0000_0000,
        pow256(8) == 0x1_0000_0000_0000_0000,
{
    reveal_with_fuel(pow256, 9);
}

/// `n` digits are `n` bytes.
pub proof fn lemma_le_bytes_len(x: nat, n: nat)
    ensures
        le_bytes(x, n).len() == n,
    decreases n,
{
    if n > 0 {
        lemma_le_bytes_len(x / 256, (n - 1) as nat);
    }
}

/// A number of `n` digits is less than `256` to the power `n`.
pub proof fn lemma_le_value_bound(bytes: Seq<u8>)
    ensures
        le_value(bytes) < pow256(bytes.len()),
    decreases bytes.len(),
{
    if bytes.len() > 0 {
        lemma_le_value_bound(bytes.subrange(1, bytes.len() as int));
    }
}

/// Reading back the digits of `x` gives `x`, as far as `n` digits hold it.
pub proof fn lemma_le_value_of_bytes(x: nat, n: nat)
    requires
        x < pow256(n),
    ensures
        le_value(le_bytes(x, n)) == x,
    decreases n,
{
    if n > 0 {
        let rest = le_bytes(x / 256, (n - 1) as nat);
        lemma_le_bytes_len(x / 256, (n - 1) as nat);
        lemma_le_value_of_bytes(x / 256, (n - 1) as nat);
        assert(le_bytes(x, n).subrange(1, n as int) =~= rest);
    }
}

/// The powers of 256 grow.
pub proof fn lemma_pow256_monotone(a: nat, b: nat)
    requires
        a <= b,
    ensures
        pow256(a) <= pow256(b),
    decreases b,
{
    if a < b {
        lemma_pow256_monotone(a, (b - 1) as nat);
    }
}

/// Appends the `n` low base-256 digits of `x` to `out`.
pub fn push_le(out: &mut Vec<u8>, x: u64, n: usize)
    ensures
        final(out)@ == old(out)@ + le_bytes(x as nat, n as nat),
{
    let mut rest: u64 = x;
    let mut i: usize = 0;
    while i < n
        invariant
            i <= n,
            old(out)@ + le_bytes(x as nat, n as nat) == out@ + le_bytes(rest as nat, (n - i) as nat),
        decreases n - i,
    {
        let ghost before = out@;
        out.push((rest % 256) as u8);
        proof {
            assert(before + le_bytes(rest as nat, (n - i) as nat) =~= out@ + le_bytes(
                (rest / 256) as nat,
                (n - i - 1) as nat,
            ));
        }
        rest = rest / 256;
        i = i + 1;
    }
    assert(out@ + le_bytes(rest as nat, 0) =~= out@);
}

/// Reads the `n` bytes of `bytes` from `pos` on as one little-endian number.
pub fn read_le(bytes: &[u8], pos: usize, n: usize) -> (r: u64)
    requires
        n <= 8,
        pos + n <= bytes@.len(),
    ensures
        r == le_value(bytes@.subrange(pos as int, pos + n)),
{
    let mut acc: u64 = 0;
    let mut i: usize = n;
    let len: usize = bytes.len();
    proof {
        lemma_pow256_values();
    }
    while i > 0
        invariant
            i <= n <= 8,
            pos + n <= bytes@.len() == len,
            pow256(8) == 0x1_0000_0000_0000_0000,
            acc == le_value(bytes@.subrange(pos + i, pos + n)),
        decreases i,
    {
        proof {
            let wide = bytes@.subrange(pos + i - 1, pos + n);
            let narrow = bytes@.subrange(pos + i, pos + n);
            assert(wide.subrange(1, wide.len() as int) =~= narrow);
            lemma_le_value_bound(wide);
            lemma_pow256_monotone(wide.len(), 8);
            assert(le_value(wide) == wide[0] as nat + 256 * le_value(narrow));
        }
        i = i - 1;
        let digit: u8 = bytes[pos + i];
        acc = acc * 256 + digit as u64;
    }
    acc
}

/// The `n`-byte two's complement form of `i`, as a number.
pub open spec fn to_unsigned(i: int, n: nat) -> nat {
    if i >= 0 {
        i as nat
    } else {
        (i + pow256(n)) as nat
    }
}

/// The number whose `n`-byte two's complement form is `x`.
pub open spec fn to_signed(x: nat, n: nat) -> int {
    if 2 * x < pow256(n) {
        x as int
    } else {
        x - pow256(n)
    }
}

/// Whether `i` has an `n`-byte two's complement form.
pub open spec fn fits_signed(i: int, n: nat) -> bool {
    -(pow256(n) as int) <= 2 * i < pow256(n)
}

/// Two's complement is undone by `to_signed`.
pub proof fn lemma_signed_round_trip(i: int, n: nat)
    requires
        fits_signed(i, n),
    ensures
        to_unsigned(i, n) < pow256(n),
        to_signed(to_unsigned(i, n), n) == i,
{
}

/// Whether `n` is the width in bytes of a fixed-width integer kind.
pub open spec fn is_width(n: nat) -> bool {
    n == 1 || n == 2 || n == 4 || n == 8
}

/// The `n`-byte two's complement form of `i`.
pub fn unsigned_of(i: i64, n: usize) -> (r: u64)
    requires
        is_width(n as nat),
        fits_signed(i as int, n as nat),
    ensures
        r == to_unsigned(i as int, n as nat),
{
    proof {
        lemma_pow256_values();
    }
    if i >= 0 {
        i as u64
    } else if n == 8 {
        let low: i64 = (i + 1) + i64::MAX;
        low as u64 + 0x8000_0000_0000_0000u64
    } else {
        let modulus: i64 = if n == 1 {
            0x100
        } else if n == 2 {
            0x1_0000
        } else {
            0x1_0000_0000
        };
        (i + modulus) as u64
    }
}

/// The number whose `n`-byte two's complement form is `x`.
pub fn signed_of(x: u64, n: usize) -> (r: i64)
    requires
        is_width(n as nat),
        x < pow256(n as nat),
    ensures
        r == to_signed(x as nat, n as nat),
        fits_signed(r as int, n as nat),
{
    proof {
        lemma_pow256_values();
    }
    if n == 8 {
        if x < 0x8000_0000_0000_0000u64 {
            x as i64
        } else {
            let low: u64 = x - 0x8000_0000_0000_0000u64;
            low as i64 + i64::MIN
        }
    } else {
        let modulus: i64 = if n == 1 {
            0x100
        } else if n == 2 {
            0x1_0000
        } else {
            0x1_0000_0000
        };
        let wide: i64 = x as i64;
        if 2 * wide < modulus {
            wide
        } else {
            wide - modulus
        }
    }
}

/// Appends `src` to `out`.
pub fn append_bytes(out: &mut Vec<u8>, src: &[u8])
    ensures
        final(out)@ == old(out)@ + src@,
{
    out.extend_from_slice(src);
    assert(out@ =~= old(out)@ + src@);
}

} // verus!
