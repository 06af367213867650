//! Little-endian integer fields of on-disk structures.

use vstd::prelude::*;

verus! {

/// The value of a byte sequence read as a little-endian unsigned integer,
/// least-significant byte first.
pub open spec fn le_value(s: Seq<u8>) -> nat
    decreases s.len(),
{
    if s.len() == 0 {
        0
    } else {
        s[0] as nat + 256 * le_value(s.skip(1))
    }
}

/// 256 raised to `n`: the weight of byte `n` in a little-endian value.
pub open spec fn pow256(n: nat) -> nat
    decreases n,
{
    if n == 0 {
        1
    } else {
        256 * pow256((n - 1) as nat)
    }
}

/// A sequence of `n` bytes holds a value below `pow256(n)`.
pub proof fn lemma_le_value_bound(s: Seq<u8>)
    ensures
        le_value(s) < pow256(s.len()),
    decreases s.len(),
{
    if s.len() == 0 {
    } else {
        lemma_le_value_bound(s.skip(1));
    }
}

/// The weights of the byte positions that on-disk fields use; in
/// particular, eight bytes hold a value that fits in a `u64`.
pub proof fn lemma_pow256_u64()
    ensures
        pow256(2) == 0x1_0000,
        pow256(4) == 0x1_0000_0000,
        pow256(7) == 0x100_0000_0000_0000,
        pow256(8) == 0x1_0000_0000_0000_0000,
{
    assert(pow256(0) == 1);
    assert(pow256(1) == 256);
    assert(pow256(2) == 0x1_0000);
    assert(pow256(3) == 0x100_0000);
    assert(pow256(4) == 0x1_0000_0000);
    assert(pow256(5) == 0x100_0000_0000);
    assert(pow256(6) == 0x1_0000_0000_0000);
    assert(pow256(7) == 0x100_0000_0000_0000);
}

/// `pow256` grows with its argument.
pub proof fn lemma_pow256_increases(m: nat, n: nat)
    requires
        m <= n,
    ensures
        pow256(m) <= pow256(n),
    decreases n,
{
    if m < n {
        lemma_pow256_increases(m, (n - 1) as nat);
    }
}

/// Reads `width` bytes at `offset` as a little-endian unsigned integer.
pub fn read_le(input: &[u8], offset: usize, width: usize) -> (r: u64)
    requires
        width <= 8,
        offset + width <= input@.len(),
    ensures
        r as nat == le_value(input@.subrange(offset as int, offset as int + width as int)),
{
    let n: usize = input.len();
    let mut r: u64 = 0;
    let mut i: usize = width;
    proof {
        assert(input@.subrange(offset as int + width as int, offset as int + width as int)
            =~= Seq::<u8>::empty());
    }
    while i > 0
        invariant
            i <= width,
            width <= 8,
            offset + width <= n,
            n == input@.len(),
            r as nat == le_value(
                input@.subrange(offset as int + i as int, offset as int + width as int),
            ),
            r < pow256((width - i) as nat),
        decreases i,
    {
        i = i - 1;
        let ghost prev = input@.subrange(offset as int + i as int + 1, offset as int + width as int);
        let ghost cur = input@.subrange(offset as int + i as int, offset as int + width as int);
        proof {
            assert(cur.skip(1) =~= prev);
            assert(pow256((width - i) as nat) == 256 * pow256((width - i - 1) as nat));
            lemma_pow256_increases((width - i) as nat, 8);
            lemma_pow256_u64();
            assert(r * 256 + 255 < pow256((width - i) as nat));
        }
        r = r * 256 + input[offset + i] as u64;
    }
    r
}

/// The integer `n` reinterpreted as a 64-bit two's-complement value.
pub open spec fn as_signed_64(n: nat) -> int {
    if n < 0x8000_0000_0000_0000 {
        n as int
    } else {
        n - 0x1_0000_0000_0000_0000
    }
}

/// Reads eight bytes at `offset` as a little-endian signed integer.
pub fn read_le_i64(input: &[u8], offset: usize) -> (r: i64)
    requires
        offset + 8 <= input@.len(),
    ensures
        r as int == as_signed_64(le_value(input@.subrange(offset as int, offset as int + 8))),
{
    let v = read_le(input, offset, 8);
    proof {
        lemma_le_value_bound(input@.subrange(offset as int, offset as int + 8));
        lemma_pow256_u64();
    }
    if v < 0x8000_0000_0000_0000 {
        v as i64
    } else {
        -((u64::MAX - v) as i64) - 1
    }
}

} // verus!
