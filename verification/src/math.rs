//! Powers of two, the binary logarithm, and fixed-width bitmask helpers.
//!
//! The free-list registry bins blocks by `log2` of their size and keeps one
//! mask bit per bin; everything here serves those two notions.

use vstd::prelude::*;

verus! {

/// `2^e` over the integers (`1` for `e <= 0`).
pub open spec fn p2(e: int) -> int
    decreases e,
{
    if e <= 0 {
        1
    } else {
        2 * p2(e - 1)
    }
}

/// Binary logarithm rounded down (`0` for `n < 2`).
pub open spec fn log2(n: int) -> int
    decreases n,
{
    if n < 2 {
        0
    } else {
        1 + log2(n / 2)
    }
}

/// Bit `i` of the 64-bit mask `m`.
pub open spec fn bit64(m: u64, i: u64) -> bool {
    i < 64 && (m >> i) & 1u64 == 1u64
}

/// Index of the highest set bit of `m` at or below `i`, or `-1` if none.
pub open spec fn top_bit(m: u64, i: int) -> int
    decreases i + 1,
{
    if i < 0 {
        -1
    } else if bit64(m, i as u64) {
        i
    } else {
        top_bit(m, i - 1)
    }
}

pub proof fn lemma_p2_pos(e: int)
    ensures
        p2(e) >= 1,
    decreases e,
{
    if e > 0 {
        lemma_p2_pos(e - 1);
    }
}

pub proof fn lemma_p2_mono(a: int, b: int)
    requires
        a <= b,
    ensures
        p2(a) <= p2(b),
    decreases b - a,
{
    if a < b {
        lemma_p2_mono(a, b - 1);
        lemma_p2_pos(b - 1);
    }
}

/// A step up in exponent at least doubles the power.
pub proof fn lemma_p2_strict_mono(a: int, b: int)
    requires
        0 <= a,
        a < b,
    ensures
        2 * p2(a) <= p2(b),
{
    lemma_p2_mono(a + 1, b);
}

pub proof fn lemma_log2_bounds(n: int)
    requires
        n >= 1,
    ensures
        0 <= log2(n),
        p2(log2(n)) <= n,
        n < p2(log2(n) + 1),
    decreases n,
{
    if n >= 2 {
        lemma_log2_bounds(n / 2);
    }
}

/// `log2` is the unique exponent whose power-of-two window contains `s`.
pub proof fn lemma_log2_is_bin(s: int, b: int)
    requires
        0 <= b,
        p2(b) <= s,
        s < p2(b + 1),
    ensures
        log2(s) == b,
{
    lemma_p2_pos(b);
    lemma_log2_bounds(s);
    let l = log2(s);
    if l < b {
        lemma_p2_mono(l + 1, b);
    }
    if l > b {
        lemma_p2_mono(b + 1, l);
    }
}

/// A left shift of one computes `p2` on 64-bit words.
pub proof fn lemma_p2_shift(i: u64)
    requires
        i < 64,
    ensures
        (1u64 << i) as int == p2(i as int),
    decreases i,
{
    if i == 0 {
        assert(1u64 << 0u64 == 1u64) by (bit_vector);
    } else {
        lemma_p2_shift((i - 1) as u64);
        let h = (i - 1) as u64;
        assert(1u64 << (h + 1) == 2 * (1u64 << h)) by (bit_vector)
            requires
                h < 63u64,
        ;
    }
}

/// Computes `log2(x)` together with the matching power of two.
pub fn log2_floor(x: u64) -> (r: (u64, u64))
    requires
        x >= 1,
    ensures
        r.0 < 64,
        r.1 as int == p2(r.0 as int),
        r.0 as int == log2(x as int),
        r.1 <= x,
        (x as int) < 2 * (r.1 as int),
{
    let mut i: u64 = 0;
    let mut p: u64 = 1;
    while i < 63 && x / 2 >= p
        invariant
            x >= 1,
            i < 64,
            p as int == p2(i as int),
            p <= x,
        decreases 63 - i,
    {
        p = p * 2;
        i = i + 1;
    }
    proof {
        if i == 63 {
            lemma_p2_shift(63);
            assert((1u64 << 63u64) == 0x8000000000000000u64) by (bit_vector);
        }
        lemma_log2_is_bin(x as int, i as int);
    }
    (i, p)
}

/// First set bit of `m` at index `from` or above, if any.
pub fn find_first_set_from(m: u64, from: u64) -> (r: Option<u64>)
    requires
        from <= 64,
    ensures
        match r {
            Some(i) => from <= i && i < 64 && bit64(m, i) && (forall|k: u64|
                from <= k < i ==> !bit64(m, k)),
            None => forall|k: u64| from <= k < 64 ==> !bit64(m, k),
        },
{
    let mut i: u64 = from;
    while i < 64
        invariant
            from <= i <= 64,
            forall|k: u64| from <= k < i ==> !bit64(m, k),
        decreases 64 - i,
    {
        if (m >> i) & 1u64 == 1u64 {
            return Some(i);
        }
        i = i + 1;
    }
    None
}

/// The highest set bit of `m`, as `top_bit` names it.
pub fn highest_set_bit(m: u64) -> (r: Option<u64>)
    ensures
        match r {
            Some(i) => i < 64 && i as int == top_bit(m, 63),
            None => top_bit(m, 63) == -1,
        },
{
    let mut i: u64 = 64;
    while i > 0
        invariant
            i <= 64,
            top_bit(m, 63) == top_bit(m, i as int - 1),
        decreases i,
    {
        i = i - 1;
        if (m >> i) & 1u64 == 1u64 {
            return Some(i);
        }
    }
    None
}

/// Everything `top_bit` promises: it names a set bit, and nothing above it is set.
pub proof fn lemma_top_bit(m: u64, i: int)
    requires
        -1 <= i <= 63,
    ensures
        -1 <= top_bit(m, i) <= i,
        top_bit(m, i) >= 0 ==> bit64(m, top_bit(m, i) as u64),
        forall|k: u64| top_bit(m, i) < k as int <= i ==> !bit64(m, k),
        forall|k: u64| k as int <= i && bit64(m, k) ==> k as int <= top_bit(m, i),
    decreases i + 1,
{
    if i >= 0 && !bit64(m, i as u64) {
        lemma_top_bit(m, i - 1);
    }
}

/// Setting bit `i` leaves every other bit as it was.
pub proof fn lemma_bit_or(m: u64, i: u64, k: u64)
    requires
        i < 64,
        k < 64,
    ensures
        bit64(m | (1u64 << i), k) == (k == i || bit64(m, k)),
{
    assert((((m | (1u64 << i)) >> k) & 1u64 == 1u64) == (k == i || (m >> k) & 1u64 == 1u64))
        by (bit_vector)
        requires
            i < 64u64,
            k < 64u64,
    ;
}

/// Clearing bit `i` leaves every other bit as it was.
pub proof fn lemma_bit_and_not(m: u64, i: u64, k: u64)
    requires
        i < 64,
        k < 64,
    ensures
        bit64(m & !(1u64 << i), k) == (k != i && bit64(m, k)),
{
    assert((((m & !(1u64 << i)) >> k) & 1u64 == 1u64) == (k != i && (m >> k) & 1u64 == 1u64))
        by (bit_vector)
        requires
            i < 64u64,
            k < 64u64,
    ;
}

/// Any value a 64-bit word can hold has its logarithm below the bin count.
pub proof fn lemma_log2_le63(n: int)
    requires
        1 <= n <= u64::MAX,
    ensures
        0 <= log2(n) <= 63,
{
    lemma_log2_bounds(n);
    if log2(n) > 63 {
        lemma_p2_shift(63);
        assert((1u64 << 63u64) == 0x8000000000000000u64) by (bit_vector);
        lemma_p2_mono(64, log2(n));
    }
}

/// A one-bit mask has exactly its one bit set.
pub proof fn lemma_bit_single(i: u64, k: u64)
    requires
        i < 64,
        k < 64,
    ensures
        bit64(1u64 << i, k) == (k == i),
{
    assert((((1u64 << i) >> k) & 1u64 == 1u64) == (k == i)) by (bit_vector)
        requires
            i < 64u64,
            k < 64u64,
    ;
}

} // verus!
