//! The structural kernel: byte-equality bitmasks over a 64-byte chunk and
//! the prefix-parity (carry-less-multiply style) quote mask. Bit `i` of
//! every mask corresponds to chunk byte `i`, bit 0 being the earliest
//! byte. The masks are produced by plain 64-iteration loops that are
//! bit-identical to the wide-compare realizations the layout was designed
//! for, and each loop is verified against the per-bit statement directly.

use vstd::prelude::*;

verus! {

/// Bit `i` of the 64-bit mask `m`.
pub open spec fn bit64(m: u64, i: u64) -> bool
    recommends
        i < 64,
{
    (m >> i) & 1u64 == 1u64
}

/// Parity (xor-fold) of bits `0..k` of `m`: true when an odd number of
/// those bits are set.
pub open spec fn bits_parity(m: u64, k: int) -> bool
    decreases k,
{
    if k <= 0 {
        false
    } else {
        bits_parity(m, k - 1) != bit64(m, (k - 1) as u64)
    }
}

pub proof fn lemma_bit64_zero(j: u64)
    requires
        j < 64,
    ensures
        !bit64(0u64, j),
{
    assert((0u64 >> j) & 1u64 != 1u64) by (bit_vector);
}

pub proof fn lemma_bit64_set(m: u64, i: u64, j: u64)
    requires
        i < 64,
        j < 64,
    ensures
        bit64(m | (1u64 << i), j) == (bit64(m, j) || i == j),
{
    assert(((m | (1u64 << i)) >> j) & 1u64 == 1u64 <==> ((m >> j) & 1u64 == 1u64 || i == j))
        by (bit_vector)
        requires
            i < 64 && j < 64,
    ;
}

pub proof fn lemma_bit64_and(a: u64, b: u64, j: u64)
    requires
        j < 64,
    ensures
        bit64(a & b, j) == (bit64(a, j) && bit64(b, j)),
{
    assert(((a & b) >> j) & 1u64 == 1u64 <==> ((a >> j) & 1u64 == 1u64 && (b >> j) & 1u64
        == 1u64)) by (bit_vector);
}

pub proof fn lemma_bit64_or(a: u64, b: u64, j: u64)
    requires
        j < 64,
    ensures
        bit64(a | b, j) == (bit64(a, j) || bit64(b, j)),
{
    assert(((a | b) >> j) & 1u64 == 1u64 <==> ((a >> j) & 1u64 == 1u64 || (b >> j) & 1u64
        == 1u64)) by (bit_vector);
}

pub proof fn lemma_bit64_not(a: u64, j: u64)
    requires
        j < 64,
    ensures
        bit64(!a, j) == !bit64(a, j),
{
    assert(((!a) >> j) & 1u64 == 1u64 <==> !((a >> j) & 1u64 == 1u64)) by (bit_vector)
        requires
            j < 64,
    ;
}

pub proof fn lemma_low_mask_bits(m: u64, k: u64, j: u64)
    requires
        k < 64,
        j < 64,
        m == (1u64 << k) - 1,
    ensures
        bit64(m, j) == (j < k),
{
    assert((m >> j) & 1u64 == 1u64 <==> j < k) by (bit_vector)
        requires
            k < 64 && j < 64 && m == (1u64 << k) - 1,
    ;
}

pub proof fn lemma_all_ones_bits(j: u64)
    requires
        j < 64,
    ensures
        bit64(0xffff_ffff_ffff_ffffu64, j),
{
    assert((0xffff_ffff_ffff_ffffu64 >> j) & 1u64 == 1u64) by (bit_vector)
        requires
            j < 64,
    ;
}

/// Mask with bit `i` set exactly for `i < k`: the classifier uses it to
/// clear every candidate bit at or past the first invalid byte.
pub fn low_mask_64(k: usize) -> (m: u64)
    requires
        k <= 64,
    ensures
        forall|j: u64| j < 64 ==> (#[trigger] bit64(m, j) == (j < k as u64)),
{
    if k >= 64 {
        proof {
            assert forall|j: u64| j < 64 implies #[trigger] bit64(0xffff_ffff_ffff_ffffu64, j) == (
            j < k as u64) by {
                lemma_all_ones_bits(j);
            }
        }
        0xffff_ffff_ffff_ffffu64
    } else {
        let kk: u64 = k as u64;
        proof {
            assert(1u64 << kk >= 1) by (bit_vector)
                requires
                    kk < 64,
            ;
        }
        let m: u64 = (1u64 << kk) - 1;
        proof {
            assert forall|j: u64| j < 64 implies #[trigger] bit64(m, j) == (j < k as u64) by {
                lemma_low_mask_bits(m, kk, j);
            }
        }
        m
    }
}

/// 64-bit equality broadcast: bit `i` of the result is set exactly when
/// byte `i` of the chunk equals `b`.
pub fn eq_mask(chunk: &[u8], b: u8) -> (m: u64)
    requires
        chunk@.len() == 64,
    ensures
        forall|j: u64| j < 64 ==> (#[trigger] bit64(m, j) == (chunk@[j as int] == b)),
{
    let mut m: u64 = 0;
    proof {
        assert forall|j: u64| j < 64 implies !#[trigger] bit64(0u64, j) by {
            lemma_bit64_zero(j);
        }
    }
    for i in 0..64usize
        invariant
            chunk@.len() == 64,
            forall|j: u64| j < i as u64 ==> (#[trigger] bit64(m, j) == (chunk@[j as int] == b)),
            forall|j: u64| i as u64 <= j < 64 ==> !#[trigger] bit64(m, j),
    {
        if chunk[i] == b {
            let ghost m0 = m;
            m = m | (1u64 << (i as u64));
            proof {
                assert forall|j: u64| j < 64 implies #[trigger] bit64(m, j) == (bit64(m0, j) || j
                    == i as u64) by {
                    lemma_bit64_set(m0, i as u64, j);
                }
            }
        }
    }
    m
}

/// Prefix-parity quote mask, the scalar realization of the carry-less
/// multiply by all-ones: bit `i` of the result is the incoming
/// inside-quotes state xored with the parity of bits `0..=i` of `q`. A set
/// bit means byte `i` lies inside a quoted region once byte `i` itself has
/// been accounted for.
pub fn prefix_region(q: u64, inside: bool) -> (r: u64)
    ensures
        forall|j: u64| j < 64 ==> (#[trigger] bit64(r, j) == (inside != bits_parity(
            q,
            j as int + 1,
        ))),
{
    let mut r: u64 = 0;
    let mut p: bool = inside;
    proof {
        assert forall|j: u64| j < 64 implies !#[trigger] bit64(0u64, j) by {
            lemma_bit64_zero(j);
        }
    }
    for i in 0..64usize
        invariant
            p == (inside != bits_parity(q, i as int)),
            forall|j: u64| j < i as u64 ==> (#[trigger] bit64(r, j) == (inside != bits_parity(
                q,
                j as int + 1,
            ))),
            forall|j: u64| i as u64 <= j < 64 ==> !#[trigger] bit64(r, j),
    {
        if (q >> (i as u64)) & 1u64 == 1u64 {
            p = !p;
        }
        assert(p == (inside != bits_parity(q, i as int + 1)));
        if p {
            let ghost r0 = r;
            r = r | (1u64 << (i as u64));
            proof {
                assert forall|j: u64| j < 64 implies #[trigger] bit64(r, j) == (bit64(r0, j) || j
                    == i as u64) by {
                    lemma_bit64_set(r0, i as u64, j);
                }
            }
        }
    }
    r
}

/// Position of the lowest set bit of `m`, or 64 when `m` is zero.
pub fn first_bit(m: u64) -> (r: usize)
    ensures
        r <= 64,
        r < 64 ==> bit64(m, r as u64) && (forall|j: u64| j < r as u64 ==> !#[trigger] bit64(m, j)),
        r == 64 ==> forall|j: u64| j < 64 ==> !#[trigger] bit64(m, j),
{
    for i in 0..64usize
        invariant
            forall|j: u64| j < i as u64 ==> !#[trigger] bit64(m, j),
    {
        if (m >> (i as u64)) & 1u64 == 1u64 {
            return i;
        }
    }
    64
}

} // verus!
