//! Counting the cells of a bitboard, and facts about one-cell bitboards.
use vstd::prelude::*;

verus! {

/// 1 when bit `i` of `x` is set, else 0.
pub open spec fn bit_at(x: u64, i: nat) -> nat {
    if (x >> (i as u64)) & 1 == 1 {
        1
    } else {
        0
    }
}

/// How many of the bits `0..n` of `x` are set.
pub open spec fn count_below(x: u64, n: nat) -> nat
    decreases n,
{
    if n == 0 {
        0
    } else {
        count_below(x, (n - 1) as nat) + bit_at(x, (n - 1) as nat)
    }
}

/// How many bits of `x` are set.
pub open spec fn popcount(x: u64) -> nat {
    count_below(x, 64)
}

/// `x` holds no bit or exactly one.
pub open spec fn at_most_one_bit(x: u64) -> bool {
    x & ((x - 1) as u64) == 0
}

/// The number of set bits of `x`.
pub fn count_ones(x: u64) -> (r: u32)
    ensures
        r == popcount(x),
{
    let mut c: u32 = 0;
    let mut i: u64 = 0;
    while i < 64
        invariant
            i <= 64,
            c == count_below(x, i as nat),
            c <= i,
        decreases 64 - i,
    {
        let b = (x >> i) & 1;
        assert(b <= 1) by (bit_vector)
            requires
                b == (x >> i) & 1,
        ;
        c = c + b as u32;
        i = i + 1;
    }
    c
}

pub proof fn lemma_count_below_bound(x: u64, n: nat)
    ensures
        count_below(x, n) <= n,
    decreases n,
{
    if n > 0 {
        lemma_count_below_bound(x, (n - 1) as nat);
    }
}

/// Disjoint bitboards: the union counts the sum.
pub proof fn lemma_count_disjoint_union(a: u64, b: u64, n: nat)
    requires
        a & b == 0,
        n <= 64,
    ensures
        count_below(a | b, n) == count_below(a, n) + count_below(b, n),
    decreases n,
{
    if n > 0 {
        lemma_count_disjoint_union(a, b, (n - 1) as nat);
        let i = (n - 1) as u64;
        assert(((a | b) >> i) & 1 == 1 <==> ((a >> i) & 1 == 1 || (b >> i) & 1 == 1))
            by (bit_vector);
        assert(!((a >> i) & 1 == 1 && (b >> i) & 1 == 1)) by (bit_vector)
            requires
                a & b == 0,
        ;
    }
}

pub proof fn lemma_popcount_disjoint_union(a: u64, b: u64)
    requires
        a & b == 0,
    ensures
        popcount(a | b) == popcount(a) + popcount(b),
{
    lemma_count_disjoint_union(a, b, 64);
}

/// The single bit `1 << s` counts one.
pub proof fn lemma_popcount_single(s: u64)
    requires
        s < 64,
    ensures
        popcount(1u64 << s) == 1,
{
    lemma_count_single(s, 64);
}

proof fn lemma_count_single(s: u64, n: nat)
    requires
        s < 64,
        n <= 64,
    ensures
        count_below(1u64 << s, n) == if n > s {
            1nat
        } else {
            0nat
        },
    decreases n,
{
    if n > 0 {
        lemma_count_single(s, (n - 1) as nat);
        let i = (n - 1) as u64;
        assert(((1u64 << s) >> i) & 1 == 1 <==> i == s) by (bit_vector)
            requires
                s < 64,
                i < 64,
        ;
    }
}

/// A one-bit bitboard that meets `o` lies inside `o`.
pub proof fn lemma_single_meets(x: u64, o: u64)
    requires
        at_most_one_bit(x),
        x & o != 0,
    ensures
        x & o == x,
{
    assert(x & ((x - 1) as u64) == 0 && x & o != 0 ==> x & o == x) by (bit_vector);
}

/// `1 << s` is one bit.
pub proof fn lemma_shift_single(s: u64)
    requires
        s < 64,
    ensures
        at_most_one_bit(1u64 << s),
        1u64 << s != 0,
{
    assert(s < 64 ==> (1u64 << s) & (((1u64 << s) - 1) as u64) == 0 && 1u64 << s != 0)
        by (bit_vector);
}

} // verus!
