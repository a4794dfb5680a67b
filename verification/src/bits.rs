//! The bits of an unsigned integer, and the casts between the widths of indices.
use vstd::prelude::*;

verus! {

/// The index of the most significant set bit of `n`, and 0 where `n` is 0 or 1.
pub open spec fn msb(n: nat) -> nat
    decreases n,
{
    if n <= 1 {
        0
    } else {
        1 + msb(n / 2)
    }
}

/// Whether bit `i` of `n` is set.
pub open spec fn bit_set(n: u32, i: u32) -> bool {
    (n >> i) & 1u32 == 1u32
}

/// The most significant set bit is the highest power of two that `n` reaches.
pub proof fn lemma_msb_bounds(n: nat)
    requires
        n >= 1,
    ensures
        vstd::arithmetic::power2::pow2(msb(n)) <= n < vstd::arithmetic::power2::pow2(msb(n) + 1),
    decreases n,
{
    vstd::arithmetic::power2::lemma2_to64();
    if n > 1 {
        lemma_msb_bounds(n / 2);
        vstd::arithmetic::power2::lemma_pow2_unfold(msb(n));
        vstd::arithmetic::power2::lemma_pow2_unfold(msb(n) + 1);
    }
}

/// Gets the index of the most significant bit: 0 for 0 and 1, 1 for 2, 7 for 255.
pub fn msb_index(n: u32) -> (r: u32)
    ensures
        r == msb(n as nat),
        r < 32,
{
    let mut m: u32 = n;
    let mut r: u32 = 0;
    proof {
        lemma_msb_below(n as nat);
    }
    while m > 1
        invariant
            msb(n as nat) == r + msb(m as nat),
            m >= 1 ==> r + msb(m as nat) < 32,
            m == 0 ==> n == 0 && r == 0,
        decreases m,
    {
        proof {
            lemma_msb_below(m as nat);
        }
        m = m / 2;
        r = r + 1;
    }
    proof {
        lemma_msb_below(n as nat);
    }
    r
}

/// The most significant bit of a 32-bit number is below 32.
proof fn lemma_msb_below(n: nat)
    requires
        n <= u32::MAX,
    ensures
        msb(n) < 32,
{
    if n >= 1 {
        lemma_msb_bounds(n);
        vstd::arithmetic::power2::lemma2_to64();
        if msb(n) > 32 {
            vstd::arithmetic::power2::lemma_pow2_strictly_increases(32, msb(n));
        }
    }
}

/// The pairs `(index, is_set)` over the bits of `n`, from the least significant bit up to the
/// most significant set bit (one pair for 0).
pub fn enumerate_bits(n: u32) -> (r: Vec<(u32, bool)>)
    ensures
        r@.len() == msb(n as nat) + 1,
        forall|i: int| 0 <= i < r@.len() ==> #[trigger] r@[i] == (i as u32, bit_set(n, i as u32)),
{
    let msb = msb_index(n);
    let mut r: Vec<(u32, bool)> = Vec::new();
    let mut i: u32 = 0;
    while i <= msb
        invariant
            msb < 32,
            i <= msb + 1,
            r@.len() == i,
            forall|j: int| 0 <= j < i ==> #[trigger] r@[j] == (j as u32, bit_set(n, j as u32)),
        decreases msb + 1 - i,
    {
        r.push((i, ((n >> i) & 1) == 1));
        i = i + 1;
    }
    r
}

/// An index as a `u32`; it must fit.
pub fn to_u32(i: usize) -> (r: u32)
    requires
        i <= u32::MAX,
    ensures
        r == i,
{
    i as u32
}

/// A `u32` as an index; it must fit.
pub fn to_usize(i: u32) -> (r: usize)
    requires
        i <= usize::MAX,
    ensures
        r == i,
{
    i as usize
}

} // verus!
