//! Domains: fixed-width bit sets over tile indices.
//!
//! A domain is a `u128` in which bit `i` is set exactly when tile `i` is still
//! possible at a cell. The empty domain is a contradiction, a domain with a single
//! bit is collapsed.

use vstd::prelude::*;

verus! {

/// Width of a domain, and so the largest tile set an engine can hold.
pub const MAX_TILES: usize = 128;

/// Whether tile `i` is still possible in `mask`.
pub open spec fn has_tile(mask: u128, i: int) -> bool {
    0 <= i < 128 && mask & (1u128 << (i as u128)) != 0
}

/// Number of tiles that are still possible in `mask`.
pub open spec fn popcount(mask: u128) -> nat
    decreases mask,
{
    if mask == 0 {
        0
    } else {
        (mask % 2) as nat + popcount(mask / 2)
    }
}

/// The domain in which exactly the tiles `0..n` are possible.
pub open spec fn full_mask(n: nat) -> u128 {
    if n >= 128 {
        u128::MAX
    } else {
        ((1u128 << (n as u128)) - 1) as u128
    }
}

/// The domain that holds tile `i` and nothing else.
pub open spec fn single_mask(i: int) -> u128 {
    1u128 << (i as u128)
}

/// `inner` allows no tile that `outer` does not allow.
pub open spec fn subset_of(inner: u128, outer: u128) -> bool {
    inner & outer == inner
}

proof fn lemma_halves(a: u128, b: u128)
    by (bit_vector)
    ensures
        (a & b) / 2 == (a / 2) & (b / 2),
        (a & b) % 2 == (a % 2) & (b % 2),
        (a % 2) & (b % 2) <= a % 2,
        (a | b) / 2 == (a / 2) | (b / 2),
        a & b <= a,
{
}

/// A domain holds at most 128 tiles, and none exactly when it is zero.
pub proof fn lemma_popcount_bounds(mask: u128)
    ensures
        popcount(mask) <= 128,
        popcount(mask) == 0 <==> mask == 0,
{
    lemma_popcount_below(mask, 128);
}

proof fn lemma_popcount_below(mask: u128, bits: nat)
    requires
        bits <= 128,
        bits < 128 ==> mask < pow2_u128(bits),
    ensures
        popcount(mask) <= bits,
        popcount(mask) == 0 <==> mask == 0,
    decreases mask,
{
    lemma_pow2_step(bits);
    if mask != 0 {
        if bits > 0 {
            lemma_pow2_step((bits - 1) as nat);
            lemma_popcount_below(mask / 2, (bits - 1) as nat);
        }
    }
}

/// Two to the power `bits`, for `bits` below 128.
pub open spec fn pow2_u128(bits: nat) -> u128 {
    1u128 << (bits as u128)
}

proof fn lemma_pow2_step(bits: nat)
    ensures
        0 < bits < 128 ==> pow2_u128(bits) == 2 * pow2_u128((bits - 1) as nat),
        bits < 128 ==> pow2_u128(bits) >= 1,
        bits == 0 ==> pow2_u128(bits) == 1,
        bits == 127 ==> pow2_u128(bits) == 0x8000_0000_0000_0000_0000_0000_0000_0000u128,
{
    if bits < 128 {
        let b = bits as u128;
        assert((1u128 << b) >= 1 && (0 < b ==> (1u128 << b) == 2 * (1u128 << ((b - 1) as u128)))
            && (b == 0 ==> (1u128 << b) == 1)
            && (b == 127 ==> (1u128 << b) == 0x8000_0000_0000_0000_0000_0000_0000_0000u128))
            by (bit_vector)
            requires
                b < 128,
        ;
    }
}

/// Intersecting a domain never adds tiles, and keeps the count only when it
/// changes nothing.
pub proof fn lemma_popcount_and(a: u128, b: u128)
    ensures
        popcount(a & b) <= popcount(a),
        popcount(a & b) == popcount(a) ==> a & b == a,
    decreases a,
{
    lemma_halves(a, b);
    if a != 0 {
        lemma_popcount_and(a / 2, b / 2);
        lemma_popcount_bounds(a & b);
    }
}

proof fn lemma_bit_facts(a: u128, b: u128, i: u128, n: u128)
    by (bit_vector)
    requires
        i < 128,
        n < 128,
    ensures
        ((a & b) & (1u128 << i) != 0) <==> (a & (1u128 << i) != 0 && b & (1u128 << i) != 0),
        ((a | b) & (1u128 << i) != 0) <==> (a & (1u128 << i) != 0 || b & (1u128 << i) != 0),
        ((((1u128 << n) - 1) as u128) & (1u128 << i) != 0) <==> i < n,
        (0xffff_ffff_ffff_ffff_ffff_ffff_ffff_ffffu128 & (1u128 << i) != 0),
        ((1u128 << n) & (1u128 << i) != 0) <==> i == n,
        0u128 & (1u128 << i) == 0,
        i < 127 ==> ((a & (1u128 << ((i + 1) as u128)) != 0) <==> ((a / 2) & (1u128 << i) != 0)),
        (a & (1u128 << 0) != 0) <==> a % 2 == 1,
        (a / 2) & (1u128 << 127) == 0,
{
}

/// Membership in intersections, unions, full and single-tile domains.
pub proof fn lemma_has_tile(a: u128, b: u128, i: int, n: int)
    requires
        0 <= n <= 128,
    ensures
        has_tile(a & b, i) <==> has_tile(a, i) && has_tile(b, i),
        has_tile(a | b, i) <==> has_tile(a, i) || has_tile(b, i),
        has_tile(full_mask(n as nat), i) <==> 0 <= i < n,
        n < 128 ==> (has_tile(single_mask(n), i) <==> i == n),
        !has_tile(0, i),
{
    if 0 <= i < 128 {
        lemma_bit_facts(a, b, i as u128, if n < 128 { n as u128 } else { 0 });
    }
}

/// A domain is determined by the tiles it holds.
pub proof fn lemma_domain_ext(a: u128, b: u128)
    requires
        forall|i: int| 0 <= i < 128 ==> #[trigger] has_tile(a, i) == has_tile(b, i),
    ensures
        a == b,
    decreases a + b,
{
    if a != 0 || b != 0 {
        lemma_bit_facts(a, b, 0, 0);
        lemma_bit_facts(b, a, 0, 0);
        assert(has_tile(a, 0) == has_tile(b, 0));
        assert forall|i: int| 0 <= i < 128 implies #[trigger] has_tile(a / 2, i) == has_tile(b / 2, i) by {
            lemma_bit_facts(a, b, i as u128, 0);
            lemma_bit_facts(b, a, i as u128, 0);
            if i < 127 {
                assert(has_tile(a, i + 1) == has_tile(b, i + 1));
            }
        }
        lemma_domain_ext(a / 2, b / 2);
    }
}

/// A domain that is not empty holds some tile.
pub proof fn lemma_nonempty_has_tile(mask: u128)
    requires
        mask != 0,
    ensures
        exists|i: int| has_tile(mask, i),
{
    if forall|i: int| 0 <= i < 128 ==> !#[trigger] has_tile(mask, i) {
        assert forall|i: int| 0 <= i < 128 implies #[trigger] has_tile(mask, i) == has_tile(0, i) by {
            lemma_has_tile(0, 0, i, 0);
        }
        lemma_domain_ext(mask, 0);
    }
}

/// A domain with one tile counts one.
pub proof fn lemma_popcount_single(i: int)
    requires
        0 <= i < 128,
    ensures
        popcount(single_mask(i)) == 1,
        single_mask(i) != 0,
    decreases i,
{
    lemma_pow2_step(i as nat);
    if i > 0 {
        lemma_popcount_single(i - 1);
    } else {
        assert(popcount(0) == 0);
    }
}

/// The full domain over `n` tiles counts `n`.
pub proof fn lemma_popcount_full(n: nat)
    requires
        n <= 128,
    ensures
        popcount(full_mask(n)) == n,
    decreases n,
{
    if n > 0 {
        lemma_pow2_step(n);
        lemma_pow2_step((n - 1) as nat);
        lemma_popcount_full((n - 1) as nat);
    } else {
        lemma_pow2_step(0);
    }
}

/// Whether tile `i` is possible in `mask`.
pub fn contains_tile(mask: u128, i: usize) -> (b: bool)
    requires
        i < MAX_TILES,
    ensures
        b == has_tile(mask, i as int),
{
    (mask & (1u128 << i)) != 0
}

/// The domain that holds tile `i` alone.
pub fn single_domain(i: usize) -> (mask: u128)
    requires
        i < MAX_TILES,
    ensures
        mask == single_mask(i as int),
{
    1u128 << i
}

/// The domain in which all of the tiles `0..n` are possible.
pub fn full_domain(n: usize) -> (mask: u128)
    requires
        n <= MAX_TILES,
    ensures
        mask == full_mask(n as nat),
{
    if n == MAX_TILES {
        u128::MAX
    } else {
        proof {
            lemma_pow2_step(n as nat);
        }
        (1u128 << n) - 1
    }
}

/// Counts the tiles that are possible in `mask`.
pub fn count_tiles(mask: u128) -> (n: usize)
    ensures
        n == popcount(mask),
{
    let mut rest: u128 = mask;
    let mut n: usize = 0;
    proof {
        lemma_popcount_bounds(mask);
    }
    while rest != 0
        invariant
            n + popcount(rest) == popcount(mask),
            popcount(mask) <= 128,
        decreases rest,
    {
        if rest % 2 == 1 {
            n = n + 1;
        }
        rest = rest / 2;
    }
    n
}

/// Adding tile `k` to the full domain over `k` tiles gives the full domain over
/// `k + 1` tiles.
pub proof fn lemma_full_mask_step(k: nat)
    requires
        k < 128,
    ensures
        full_mask(k) | single_mask(k as int) == full_mask(k + 1),
{
    let a = full_mask(k) | single_mask(k as int);
    let b = full_mask(k + 1);
    assert forall|i: int| 0 <= i < 128 implies #[trigger] has_tile(a, i) == has_tile(b, i) by {
        lemma_has_tile(full_mask(k), single_mask(k as int), i, k as int);
        lemma_has_tile(0, 0, i, (k + 1) as int);
    }
    lemma_domain_ext(a, b);
}

/// A union with itself or with nothing changes no domain.
pub proof fn lemma_union_same(a: u128)
    by (bit_vector)
    ensures
        a | a == a,
        0u128 | a == a,
        a | 0u128 == a,
{
}

/// The full domain over no tiles is empty.
pub proof fn lemma_full_mask_zero()
    ensures
        full_mask(0) == 0,
{
    lemma_pow2_step(0);
}

} // verus!
