//! Bit-level facts shared by the bit-set types (`Holding`, `Hand`, `ShapeSet`).
//!
//! A bit set is read as the set of positions of its one bits; the lemmas below relate the
//! machine operations (`|`, `&`, `!`, shifts) to the set operations, and the population count
//! to the cardinality of that set.

use vstd::prelude::*;
use vstd::set_lib::set_int_range;

verus! {

/// Bit `i` of `x` (false outside `0..64`).
pub open spec fn bit64(x: u64, i: int) -> bool {
    0 <= i < 64 && (x >> (i as u64)) & 1 == 1
}

/// The positions of the one bits of `x`.
pub open spec fn bitset64(x: u64) -> Set<int> {
    Set::new(|i: int| bit64(x, i))
}

/// The positions of the one bits of `x` below `n`.
pub open spec fn bitset64_below(x: u64, n: int) -> Set<int> {
    Set::new(|i: int| i < n && bit64(x, i))
}

/// Number of one bits of `x` among positions `0..n`.
pub open spec fn popcount(x: u64, n: nat) -> nat
    decreases n,
{
    if n == 0 {
        0
    } else {
        popcount(x, (n - 1) as nat) + if bit64(x, n - 1) {
            1nat
        } else {
            0nat
        }
    }
}

pub proof fn lemma_or(a: u64, b: u64, i: u64)
    by (bit_vector)
    requires
        i < 64,
    ensures
        ((a | b) >> i) & 1 == 1 <==> ((a >> i) & 1 == 1 || (b >> i) & 1 == 1),
{
}

pub proof fn lemma_and(a: u64, b: u64, i: u64)
    by (bit_vector)
    requires
        i < 64,
    ensures
        ((a & b) >> i) & 1 == 1 <==> ((a >> i) & 1 == 1 && (b >> i) & 1 == 1),
{
}

pub proof fn lemma_and_not(a: u64, b: u64, i: u64)
    by (bit_vector)
    requires
        i < 64,
    ensures
        ((a & !b) >> i) & 1 == 1 <==> ((a >> i) & 1 == 1 && !((b >> i) & 1 == 1)),
{
}

pub proof fn lemma_xor(a: u64, b: u64, i: u64)
    by (bit_vector)
    requires
        i < 64,
    ensures
        ((a ^ b) >> i) & 1 == 1 <==> (((a >> i) & 1 == 1) != ((b >> i) & 1 == 1)),
{
}

pub proof fn lemma_one(k: u64, i: u64)
    by (bit_vector)
    requires
        k < 64,
        i < 64,
    ensures
        (((1u64 << k) >> i) & 1 == 1) <==> i == k,
{
}

pub proof fn lemma_zero(i: u64)
    by (bit_vector)
    requires
        i < 64,
    ensures
        !((0u64 >> i) & 1 == 1),
{
}

pub proof fn lemma_all_ones(i: u64)
    by (bit_vector)
    requires
        i < 64,
    ensures
        (0xFFFF_FFFF_FFFF_FFFFu64 >> i) & 1 == 1,
{
}

/// Bits of a value whose high part (from `k` up) is zero.
pub proof fn lemma_high_zero(x: u64, k: u64, i: u64)
    by (bit_vector)
    requires
        k < 64,
        k <= i < 64,
        x >> k == 0,
    ensures
        !((x >> i) & 1 == 1),
{
}

/// A mask of the low `k` bits.
pub proof fn lemma_low_mask(k: u64, i: u64)
    by (bit_vector)
    requires
        0 < k < 64,
        i < 64,
    ensures
        ((((1u64 << k) - 1u64) as u64 >> i) & 1 == 1) <==> i < k,
{
}

/// The high part of a result of `|`, `&`, `& !` and single bits stays clear.
pub proof fn lemma_high_ops(a: u64, b: u64, k: u64)
    by (bit_vector)
    requires
        k < 64,
        a >> k == 0,
        b >> k == 0,
    ensures
        (a | b) >> k == 0,
        (a & b) >> k == 0,
        (a & !b) >> k == 0,
        (a ^ b) >> k == 0,
        (b & a) >> k == 0,
{
}

pub proof fn lemma_high_and_left(a: u64, b: u64, k: u64)
    by (bit_vector)
    requires
        k < 64,
        a >> k == 0,
    ensures
        (a & b) >> k == 0,
        (a & !b) >> k == 0,
{
}

pub proof fn lemma_high_one(j: u64, k: u64)
    by (bit_vector)
    requires
        j < k < 64,
    ensures
        (1u64 << j) >> k == 0,
{
}

/// Extraction of a 13-bit block: bit `j` of `(x >> s) & 0x1FFF`.
pub proof fn lemma_extract(x: u64, s: u64, j: u64)
    by (bit_vector)
    requires
        s <= 39,
        j < 64,
    ensures
        ((((x >> s) & 0x1FFF) >> j) & 1 == 1) <==> (j < 13 && (x >> ((s + j) as u64)) & 1 == 1),
        (x >> s) & 0x1FFF < 0x2000,
{
}

/// Deposit of a 13-bit block at offset `s`.
pub proof fn lemma_deposit(h: u64, s: u64, i: u64)
    by (bit_vector)
    requires
        h < 0x2000,
        s <= 39,
        i < 64,
    ensures
        (((h << s) >> i) & 1 == 1) <==> (s <= i && i < s + 13 && (h >> ((i - s) as u64)) & 1 == 1),
        (h << s) >> 52 == 0,
{
}

/// The 13-bit block mask at offset `s`.
pub proof fn lemma_block_mask(s: u64, i: u64)
    by (bit_vector)
    requires
        s <= 39,
        i < 64,
    ensures
        (((0x1FFFu64 << s) >> i) & 1 == 1) <==> (s <= i && i < s + 13),
{
}

proof fn lemma_top_bit(a: u64)
    by (bit_vector)
    ensures
        a >> 63 == (a >> 63) & 1,
{
}

proof fn lemma_ext_step(a: u64, b: u64, k: u64)
    by (bit_vector)
    requires
        k < 63,
        a >> ((k + 1) as u64) == b >> ((k + 1) as u64),
        (a >> k) & 1 == (b >> k) & 1,
    ensures
        a >> k == b >> k,
{
}

proof fn lemma_shr_zero(a: u64)
    by (bit_vector)
    ensures
        a >> 0 == a,
{
}

proof fn lemma_bit01(a: u64, k: u64)
    by (bit_vector)
    ensures
        (a >> k) & 1 == 0 || (a >> k) & 1 == 1,
{
}

proof fn lemma_ext_from(a: u64, b: u64, k: u64)
    requires
        k < 64,
        forall|i: int| k <= i < 64 ==> #[trigger] bit64(a, i) == bit64(b, i),
    ensures
        a >> k == b >> k,
    decreases 64 - k,
{
    lemma_bit01(a, k);
    lemma_bit01(b, k);
    assert(bit64(a, k as int) == bit64(b, k as int));
    if k == 63 {
        lemma_top_bit(a);
        lemma_top_bit(b);
    } else {
        lemma_ext_from(a, b, (k + 1) as u64);
        lemma_ext_step(a, b, k);
    }
}

/// Two words with the same bits are equal.
pub proof fn lemma_ext(a: u64, b: u64)
    requires
        forall|i: int| 0 <= i < 64 ==> #[trigger] bit64(a, i) == bit64(b, i),
    ensures
        a == b,
{
    lemma_ext_from(a, b, 0);
    lemma_shr_zero(a);
    lemma_shr_zero(b);
}

/// Words with equal bit sets are equal.
pub proof fn lemma_ext_set(a: u64, b: u64)
    requires
        bitset64(a) == bitset64(b),
    ensures
        a == b,
{
    assert forall|i: int| 0 <= i < 64 implies #[trigger] bit64(a, i) == bit64(b, i) by {
        assert(bitset64(a).contains(i) == bit64(a, i));
        assert(bitset64(b).contains(i) == bit64(b, i));
        assert(bitset64(a).contains(i) == bitset64(b).contains(i));
    }
    lemma_ext(a, b);
}

/// The population count below `n` is the size of the bit set below `n`.
pub proof fn lemma_popcount_len(x: u64, n: nat)
    ensures
        bitset64_below(x, n as int).finite(),
        bitset64_below(x, n as int).len() == popcount(x, n),
    decreases n,
{
    if n == 0 {
        assert(bitset64_below(x, 0) =~= Set::empty());
    } else {
        let m = (n - 1) as nat;
        lemma_popcount_len(x, m);
        if bit64(x, m as int) {
            assert(bitset64_below(x, n as int) =~= bitset64_below(x, m as int).insert(m as int));
        } else {
            assert(bitset64_below(x, n as int) =~= bitset64_below(x, m as int));
        }
    }
}

/// The bit set of a word is finite and has `popcount(x, 64)` elements.
pub proof fn lemma_bitset_len(x: u64)
    ensures
        bitset64(x).finite(),
        bitset64(x).len() == popcount(x, 64),
        bitset64(x).subset_of(set_int_range(0, 64)),
{
    lemma_popcount_len(x, 64);
    assert(bitset64(x) =~= bitset64_below(x, 64));
}

pub proof fn lemma_popcount_le(x: u64, n: nat)
    ensures
        popcount(x, n) <= n,
    decreases n,
{
    if n > 0 {
        lemma_popcount_le(x, (n - 1) as nat);
    }
}

proof fn lemma_popcount_above(x: u64, k: nat, m: nat)
    requires
        k <= m <= 64,
        k < 64,
        x >> (k as u64) == 0,
    ensures
        popcount(x, m) == popcount(x, k),
    decreases m - k,
{
    if m > k {
        lemma_popcount_above(x, k, (m - 1) as nat);
        lemma_high_zero(x, k as u64, (m - 1) as u64);
    }
}

/// Population count of a word.
pub fn count_ones64(x: u64) -> (r: u32)
    ensures
        r == popcount(x, 64),
        r <= 64,
{
    let mut n: u32 = 0;
    let mut i: u64 = 0;
    while i < 64
        invariant
            i <= 64,
            n == popcount(x, i as nat),
            n <= i,
        decreases 64 - i,
    {
        if (x >> i) & 1 == 1 {
            n = n + 1;
        }
        i = i + 1;
    }
    n
}

} // verus!

verus! {

/// A word below `2^13` has no bit at or above 13.
pub proof fn lemma_below_13(x: u64)
    by (bit_vector)
    ensures
        x < 0x2000 <==> x >> 13 == 0,
{
}

/// A word below `2^52` has no bit at or above 52.
pub proof fn lemma_below_52(x: u64)
    by (bit_vector)
    ensures
        x < 0x10_0000_0000_0000 <==> x >> 52 == 0,
{
}

/// The bit set of a word below `2^k` lies in `0..k`.
pub proof fn lemma_bitset_below(x: u64, k: u64)
    requires
        k < 64,
        x >> k == 0,
    ensures
        forall|i: int| #[trigger] bitset64(x).contains(i) ==> 0 <= i < k,
{
    assert forall|i: int| #[trigger] bitset64(x).contains(i) implies 0 <= i < k by {
        if k <= i < 64 {
            lemma_high_zero(x, k, i as u64);
        }
    }
}

/// `bitset64(a | b)` is the union.
pub proof fn lemma_set_or(a: u64, b: u64)
    ensures
        bitset64(a | b) == bitset64(a).union(bitset64(b)),
{
    assert forall|i: int| #[trigger] bitset64(a | b).contains(i) == bitset64(a).union(
        bitset64(b),
    ).contains(i) by {
        if 0 <= i < 64 {
            lemma_or(a, b, i as u64);
        }
    }
    assert(bitset64(a | b) =~= bitset64(a).union(bitset64(b)));
}

/// `bitset64(a & b)` is the intersection.
pub proof fn lemma_set_and(a: u64, b: u64)
    ensures
        bitset64(a & b) == bitset64(a).intersect(bitset64(b)),
{
    assert forall|i: int| #[trigger] bitset64(a & b).contains(i) == bitset64(a).intersect(
        bitset64(b),
    ).contains(i) by {
        if 0 <= i < 64 {
            lemma_and(a, b, i as u64);
        }
    }
    assert(bitset64(a & b) =~= bitset64(a).intersect(bitset64(b)));
}

/// `bitset64(a & !b)` is the difference.
pub proof fn lemma_set_and_not(a: u64, b: u64)
    ensures
        bitset64(a & !b) == bitset64(a).difference(bitset64(b)),
{
    assert forall|i: int| #[trigger] bitset64(a & !b).contains(i) == bitset64(a).difference(
        bitset64(b),
    ).contains(i) by {
        if 0 <= i < 64 {
            lemma_and_not(a, b, i as u64);
        }
    }
    assert(bitset64(a & !b) =~= bitset64(a).difference(bitset64(b)));
}

/// The empty word has the empty bit set; a word with an empty bit set is zero.
pub proof fn lemma_set_zero(x: u64)
    ensures
        (x == 0) <==> bitset64(x) == Set::<int>::empty(),
{
    assert forall|i: int| !(#[trigger] bitset64(0).contains(i)) by {
        if 0 <= i < 64 {
            lemma_zero(i as u64);
        }
    }
    assert(bitset64(0) =~= Set::<int>::empty());
    if bitset64(x) == Set::<int>::empty() {
        lemma_ext_set(x, 0);
    }
}

/// The bit set of `2^k - 1` is `0..k`.
pub proof fn lemma_set_low_mask(k: u64)
    requires
        0 < k < 64,
    ensures
        bitset64(((1u64 << k) - 1u64) as u64) == Set::new(|i: int| 0 <= i < k),
{
    let m = ((1u64 << k) - 1u64) as u64;
    assert forall|i: int| #[trigger] bitset64(m).contains(i) == (0 <= i < k) by {
        if 0 <= i < 64 {
            lemma_low_mask(k, i as u64);
        }
    }
    assert(bitset64(m) =~= Set::new(|i: int| 0 <= i < k));
}

} // verus!

verus! {

/// Subset of bit sets is `a & !b == 0`.
pub proof fn lemma_set_subset(a: u64, b: u64)
    ensures
        bitset64(a).subset_of(bitset64(b)) <==> a & !b == 0,
{
    lemma_set_and_not(a, b);
    lemma_set_zero(a & !b);
    if a & !b == 0 {
        assert forall|i: int| #[trigger] bitset64(a).contains(i) implies bitset64(b).contains(i) by {
            assert(!bitset64(a & !b).contains(i));
        }
    } else {
        if bitset64(a).subset_of(bitset64(b)) {
            assert(bitset64(a & !b) =~= Set::<int>::empty());
        }
    }
}

/// A submask of a word is not larger than the word.
pub proof fn lemma_submask_le(a: u64, b: u64)
    by (bit_vector)
    requires
        a & !b == 0,
    ensures
        a <= b,
{
}

/// The bit set of a single bit.
pub proof fn lemma_set_one(k: u64)
    requires
        k < 64,
    ensures
        bitset64(1u64 << k) == set![k as int],
{
    assert forall|i: int| #[trigger] bitset64(1u64 << k).contains(i) == (i == k) by {
        if 0 <= i < 64 {
            lemma_one(k, i as u64);
        }
    }
    assert(bitset64(1u64 << k) =~= set![k as int]);
}

} // verus!
