//! Byte-level helpers: little-endian integers read from bytes.

use vstd::prelude::*;

verus! {

/// The number whose little-endian digits in base 256 are the bytes.
pub open spec fn le_value(b: Seq<u8>) -> nat
    decreases b.len(),
{
    if b.len() == 0 {
        0
    } else {
        (b[0] + 256 * le_value(b.drop_first())) as nat
    }
}

/// `256` to the power `k`.
pub open spec fn pow256(k: nat) -> nat
    decreases k,
{
    if k == 0 {
        1
    } else {
        256 * pow256((k - 1) as nat)
    }
}

pub proof fn lemma_pow256_mono(a: nat, b: nat)
    requires
        a <= b,
    ensures
        pow256(a) <= pow256(b),
    decreases b,
{
    if a < b {
        lemma_pow256_mono(a, (b - 1) as nat);
    }
}

pub proof fn lemma_pow256_16()
    ensures
        pow256(16) == 0x1_0000_0000_0000_0000_0000_0000_0000_0000,
{
    reveal_with_fuel(pow256, 17);
}

/// Reads 16 bytes of a digest, starting at `start`, as a little-endian integer.
pub fn read_le_u128(h: &[u8], start: usize) -> (v: u128)
    requires
        start + 16 <= h@.len(),
    ensures
        v as nat == le_value(h@.subrange(start as int, start + 16)),
{
    let n = h.len();
    let mut v: u128 = 0;
    let mut i: usize = 16;
    proof {
        assert(h@.subrange(start + 16, start + 16) =~= Seq::<u8>::empty());
    }
    while i > 0
        invariant
            i <= 16,
            start + 16 <= h@.len(),
            n == h@.len(),
            v as nat == le_value(h@.subrange(start + i, start + 16)),
            v < pow256((16 - i) as nat),
        decreases i,
    {
        i = i - 1;
        let ghost rest = h@.subrange(start + i + 1, start + 16);
        let ghost cur = h@.subrange(start + i, start + 16);
        proof {
            assert(cur.drop_first() =~= rest);
            assert(cur[0] == h@[start + i]);
            lemma_pow256_mono((16 - i) as nat, 16);
            lemma_pow256_16();
            assert(pow256((16 - i) as nat) == 256 * pow256((16 - i - 1) as nat));
        }
        v = v * 256 + h[start + i] as u128;
    }
    v
}


/// The value of `k` bytes is below `256` to the power `k`.
pub proof fn lemma_le_value_bound(b: Seq<u8>)
    ensures
        le_value(b) < pow256(b.len()),
    decreases b.len(),
{
    if b.len() > 0 {
        lemma_le_value_bound(b.drop_first());
    }
}

/// Two byte strings of one length with the same little-endian value are equal.
pub proof fn lemma_le_value_injective(a: Seq<u8>, b: Seq<u8>)
    requires
        a.len() == b.len(),
        le_value(a) == le_value(b),
    ensures
        a == b,
    decreases a.len(),
{
    if a.len() > 0 {
        assert(a[0] + 256 * le_value(a.drop_first()) == b[0] + 256 * le_value(b.drop_first()));
        assert(a[0] == b[0] && le_value(a.drop_first()) == le_value(b.drop_first())) by (nonlinear_arith)
            requires
                a[0] + 256 * le_value(a.drop_first()) == b[0] + 256 * le_value(b.drop_first()),
                0 <= a[0] < 256,
                0 <= b[0] < 256,
        ;
        lemma_le_value_injective(a.drop_first(), b.drop_first());
        assert(a =~= seq![a[0]] + a.drop_first());
        assert(b =~= seq![b[0]] + b.drop_first());
    } else {
        assert(a =~= b);
    }
}

} // verus!
