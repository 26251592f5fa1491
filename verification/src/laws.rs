//! Library-wide laws, stated and proved over the heap model.
//!
//! Together with the contracts of `allocate` and `free` these pin down the
//! allocator's observable guarantees: live allocations never overlap, a heap
//! with nothing outstanding has coalesced back into one block spanning the
//! arena, and the registry's power-of-two bin granularity costs at most a
//! factor of two against the largest free block.

use crate::heap::{
    lemma_entry_witness, lemma_head_entry, lemma_off_aligned, lemma_off_bounds,
    lemma_used_at_least, max_alloc_spec, off, O1Heap, HEADER_SIZE,
};
use crate::math::{bit64, lemma_log2_bounds, lemma_log2_le63, lemma_p2_mono, lemma_top_bit, log2};
use vstd::prelude::*;

verus! {

/// Live allocations are pairwise disjoint: of two distinct blocks, the
/// earlier one ends no later than the later one begins, and both lie inside
/// the arena. Since every payload returned by `allocate` sits inside its own
/// used block, two live payloads can never overlap.
pub proof fn lemma_allocations_disjoint(h: &O1Heap, j1: int, j2: int)
    requires
        h.wf(),
        h.initialized(),
        0 <= j1 < j2 < h.blocks@.len(),
    ensures
        0 <= off(h.blocks@, j1),
        off(h.blocks@, j1) + h.blocks@[j1].size <= off(h.blocks@, j2),
        off(h.blocks@, j2) + h.blocks@[j2].size <= h.capacity,
{
    lemma_off_aligned(h.blocks@, j1);
    lemma_off_bounds(h.blocks@, j1, j2);
    lemma_off_bounds(h.blocks@, j2, h.blocks@.len() as int);
}

/// Once every outstanding allocation has been freed — in whatever order —
/// coalescing has fused the arena back into a single free block, and the
/// reported maximum request is the full usable capacity: the arena minus one
/// block header. On such a state `invariants_hold()` reports true, by its
/// contract on any well-formed instance.
pub proof fn lemma_all_free_full_capacity(h: &O1Heap)
    requires
        h.wf(),
        h.initialized(),
        h.allocated == 0,
    ensures
        h.blocks@.len() == 1,
        !h.blocks@[0].used,
        h.blocks@[0].size == h.capacity,
        max_alloc_spec(h) == h.capacity - HEADER_SIZE,
{
    let bs = h.blocks@;
    let bn = h.bins@;
    let len = bs.len() as int;
    // no block is still used: each used block contributes its whole size to
    // the allocated counter, which is zero
    assert forall|j: int| 0 <= j < len implies !(#[trigger] bs[j]).used by {
        if bs[j].used {
            lemma_used_at_least(bs, len, j);
        }
    }
    // there is a block at all, and adjacency leaves room for only one
    if len == 0 {
        assert(off(bs, 0) == 0);
    }
    if len >= 2 {
        assert(!bs[0].used && !bs[1].used);
    }
    assert(len == 1);
    assert(off(bs, 1) == off(bs, 0) + bs[0].size);
    // the single block is registered in the bin of its size, so that bin's
    // bit is set and every other bin is empty
    let b = log2(bs[0].size as int);
    lemma_log2_le63(bs[0].size as int);
    reveal(crate::heap::frees_binned);
    assert(crate::heap::free_in_bin(bs, bn, 0));
    reveal(crate::heap::mask_matches);
    assert(bit64(h.mask, b as u64));
    assert forall|i: u64| i < 64 && i as int != b implies !bit64(h.mask, i) by {
        if bn[i as int]@.len() > 0 {
            let jw = lemma_entry_witness(bs, bn, i as int, 0);
        }
    }
    lemma_top_bit(h.mask, 63);
    let t = crate::math::top_bit(h.mask, 63);
    assert(t == b);
    let k = bn[b]@.len() - 1;
    let jw = lemma_entry_witness(bs, bn, b, k);
    assert(bn[b]@[k].size == bs[0].size);
}

/// Bounded fragmentation, tied to the bin granularity: the maximum request
/// the registry reports never falls below half of any free block. The
/// power-of-two size classes are the only source of conservatism, so what is
/// reported satisfiable is within a factor of two (plus the header) of the
/// largest contiguous free region.
pub proof fn lemma_bounded_fragmentation(h: &O1Heap, j: int)
    requires
        h.wf(),
        h.initialized(),
        0 <= j < h.blocks@.len(),
        !h.blocks@[j].used,
    ensures
        2 * (max_alloc_spec(h) + HEADER_SIZE) > h.blocks@[j].size,
{
    let bs = h.blocks@;
    let bn = h.bins@;
    let b = log2(bs[j].size as int);
    lemma_log2_le63(bs[j].size as int);
    lemma_log2_bounds(bs[j].size as int);
    reveal(crate::heap::frees_binned);
    assert(crate::heap::free_in_bin(bs, bn, j));
    reveal(crate::heap::mask_matches);
    assert(bit64(h.mask, b as u64));
    lemma_top_bit(h.mask, 63);
    let t = crate::math::top_bit(h.mask, 63);
    assert(b <= t);
    lemma_head_entry(h, t as u64);
    lemma_p2_mono(b, t);
}

} // verus!
