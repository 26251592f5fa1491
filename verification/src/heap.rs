//! The allocator core: block records, the segregated free-list registry,
//! allocation, deallocation with coalescing, and diagnostics.

use crate::math::{
    bit64, find_first_set_from, highest_set_bit, lemma_bit_and_not, lemma_bit_or,
    lemma_bit_single, lemma_log2_bounds, lemma_log2_le63, lemma_p2_mono, lemma_p2_strict_mono,
    lemma_top_bit, log2, log2_floor, p2, top_bit,
};
use vstd::prelude::*;

verus! {

/// Alignment unit: every block size, block offset and returned payload
/// address is a multiple of this.
pub const ALIGNMENT: usize = 32;

/// Bytes of per-block bookkeeping counted inside every block's size; the
/// payload starts this far into the block.
pub const HEADER_SIZE: usize = 32;

/// Smallest block: a header plus one alignment unit of payload.
pub const MIN_BLOCK: usize = 64;

/// Number of size-class bins; bin `i` holds the free blocks whose size `s`
/// satisfies `log2(s) == i`.
pub const NUM_BINS: usize = 64;

/// One contiguous region of arena memory: its total size in bytes (header
/// plus payload) and whether it is currently handed out. Blocks are kept in
/// physical order, so a block's neighbors are the adjacent records and its
/// offset is the sum of the sizes before it.
#[derive(Clone, Copy)]
pub struct Block {
    pub size: usize,
    pub used: bool,
}

/// A free-list registry entry: the arena offset and size of one free block.
/// The last entry of a bin is the bin's head.
#[derive(Clone, Copy)]
pub struct FreeRef {
    pub off: usize,
    pub size: usize,
}

/// Error returned when arena initialization fails: the base address is null
/// or misaligned, the arena is smaller than `min_arena_size()`, or the arena
/// does not fit in the address space.
#[derive(Debug, Clone, Copy, PartialEq, Eq)]
pub struct InitError;

/// A snapshot of the allocator's incrementally maintained counters.
#[derive(Debug, Clone, Copy, PartialEq, Eq)]
pub struct Diagnostics {
    pub capacity: usize,
    pub allocated: usize,
    pub peak_allocated: usize,
    pub peak_request: usize,
    pub oom_count: u64,
}

/// Byte offset of block `j`: the sum of the sizes of the blocks before it.
pub open spec fn off(bs: Seq<Block>, j: int) -> int
    decreases j,
{
    if j <= 0 {
        0
    } else {
        off(bs, j - 1) + bs[j - 1].size
    }
}

/// Every block is at least minimal and a multiple of the alignment unit.
pub open spec fn blocks_sized(bs: Seq<Block>) -> bool {
    forall|j: int|
        0 <= j < bs.len() ==> (#[trigger] bs[j]).size >= MIN_BLOCK && bs[j].size as int % (
        ALIGNMENT as int) == 0
}

/// Adjacent free blocks never coexist: they would have been coalesced.
pub open spec fn no_adjacent_free(bs: Seq<Block>) -> bool {
    forall|j: int| 0 <= j && j + 1 < bs.len() && !(#[trigger] bs[j]).used ==> bs[j + 1].used
}

/// A used block's contribution to the allocated-byte count.
pub open spec fn ucontrib(b: Block) -> int {
    if b.used {
        b.size as int
    } else {
        0
    }
}

/// Sum of the sizes of the used blocks among the first `j`.
pub open spec fn used_total(bs: Seq<Block>, j: int) -> int
    decreases j,
{
    if j <= 0 {
        0
    } else {
        used_total(bs, j - 1) + ucontrib(bs[j - 1])
    }
}

/// Entry `e` describes block `j`: same offset, same size, and the block is free.
pub open spec fn entry_matches(bs: Seq<Block>, e: FreeRef, j: int) -> bool {
    0 <= j < bs.len() && !bs[j].used && off(bs, j) == e.off && bs[j].size == e.size
}

/// Every registry entry describes a free block and sits in the bin of its size.
#[verifier::opaque]
pub open spec fn entries_valid(bs: Seq<Block>, bins: Seq<Vec<FreeRef>>) -> bool {
    forall|i: int, k: int|
        0 <= i < bins.len() && 0 <= k < bins[i]@.len() ==> (exists|j: int|
            entry_matches(bs, #[trigger] bins[i]@[k], j)) && log2(bins[i]@[k].size as int) == i
}

/// Free block `j` has an entry in the bin matching its size.
pub open spec fn free_in_bin(bs: Seq<Block>, bins: Seq<Vec<FreeRef>>, j: int) -> bool {
    exists|k: int|
        0 <= k < bins[log2(bs[j].size as int)]@.len() && (#[trigger] bins[log2(
            bs[j].size as int,
        )]@[k]).off == off(bs, j) && bins[log2(bs[j].size as int)]@[k].size == bs[j].size
}

/// Every free block is registered in the bin matching its size.
#[verifier::opaque]
pub open spec fn frees_binned(bs: Seq<Block>, bins: Seq<Vec<FreeRef>>) -> bool {
    forall|j: int| 0 <= j < bs.len() && !(#[trigger] bs[j]).used ==> free_in_bin(bs, bins, j)
}

/// No two entries of one bin name the same offset.
#[verifier::opaque]
pub open spec fn bins_unique(bins: Seq<Vec<FreeRef>>) -> bool {
    forall|i: int, k1: int, k2: int|
        0 <= i < bins.len() && 0 <= k1 < k2 < bins[i]@.len() ==> (#[trigger] bins[i]@[k1]).off != (
        #[trigger] bins[i]@[k2]).off
}

/// Mask bit `i` is set exactly when bin `i` is non-empty.
#[verifier::opaque]
pub open spec fn mask_matches(bins: Seq<Vec<FreeRef>>, mask: u64) -> bool {
    forall|i: u64| i < 64 ==> (bit64(mask, i) <==> (#[trigger] bins[i as int])@.len() > 0)
}

/// The usable capacity carved from an arena of `size` bytes: `size` rounded
/// down to the alignment unit.
pub open spec fn arena_capacity(size: usize) -> int {
    size - size as int % (ALIGNMENT as int)
}

/// The payload bytes asked for, rounded up to the alignment unit.
pub open spec fn round_up_align(n: int) -> int {
    if n % (ALIGNMENT as int) == 0 {
        n
    } else {
        n + (ALIGNMENT as int - n % (ALIGNMENT as int))
    }
}

/// Total block size a request for `n` payload bytes needs.
pub open spec fn required_size(n: int) -> int {
    round_up_align(n) + HEADER_SIZE
}

// ------------------------------------------------------------------
// Offset and sum lemmas: how `off` and `used_total` move under point
// updates, insertions and removals of the physically ordered block list.
// ------------------------------------------------------------------

pub proof fn lemma_off_congruence(s1: Seq<Block>, s2: Seq<Block>, k: int)
    requires
        0 <= k,
        k <= s1.len(),
        k <= s2.len(),
        forall|i: int| 0 <= i < k ==> (#[trigger] s1[i]).size == s2[i].size,
    ensures
        off(s1, k) == off(s2, k),
    decreases k,
{
    if k > 0 {
        lemma_off_congruence(s1, s2, k - 1);
    }
}

/// Offsets grow along the block list; a whole block fits between two offsets.
pub proof fn lemma_off_bounds(s: Seq<Block>, a: int, b: int)
    requires
        blocks_sized(s),
        0 <= a <= b <= s.len(),
    ensures
        off(s, a) <= off(s, b),
        a < b ==> off(s, a) + s[a].size <= off(s, b),
    decreases b - a,
{
    if a < b {
        lemma_off_bounds(s, a, b - 1);
    }
}

/// Every offset is non-negative and a multiple of the alignment unit.
pub proof fn lemma_off_aligned(s: Seq<Block>, k: int)
    requires
        blocks_sized(s),
        0 <= k <= s.len(),
    ensures
        off(s, k) >= 0,
        off(s, k) % (ALIGNMENT as int) == 0,
    decreases k,
{
    if k > 0 {
        lemma_off_aligned(s, k - 1);
    }
}

/// Distinct blocks have distinct offsets.
pub proof fn lemma_off_injective(s: Seq<Block>, j1: int, j2: int)
    requires
        blocks_sized(s),
        0 <= j1 < s.len(),
        0 <= j2 < s.len(),
        off(s, j1) == off(s, j2),
    ensures
        j1 == j2,
{
    if j1 < j2 {
        lemma_off_bounds(s, j1, j2);
    }
    if j2 < j1 {
        lemma_off_bounds(s, j2, j1);
    }
}

pub proof fn lemma_off_update(s: Seq<Block>, j: int, b: Block, k: int)
    requires
        0 <= j < s.len(),
        0 <= k <= s.len(),
    ensures
        k <= j ==> off(s.update(j, b), k) == off(s, k),
        k > j ==> off(s.update(j, b), k) == off(s, k) + b.size - s[j].size,
    decreases k,
{
    if k > 0 {
        lemma_off_update(s, j, b, k - 1);
    }
}

pub proof fn lemma_off_insert(s: Seq<Block>, j: int, b: Block, k: int)
    requires
        0 <= j <= s.len(),
        0 <= k <= s.len() + 1,
    ensures
        k <= j ==> off(s.insert(j, b), k) == off(s, k),
        k > j ==> off(s.insert(j, b), k) == off(s, k - 1) + b.size,
    decreases k,
{
    if k > 0 {
        lemma_off_insert(s, j, b, k - 1);
    }
}

pub proof fn lemma_off_remove(s: Seq<Block>, j: int, k: int)
    requires
        0 <= j < s.len(),
        0 <= k <= s.len() - 1,
    ensures
        k <= j ==> off(s.remove(j), k) == off(s, k),
        k > j ==> off(s.remove(j), k) == off(s, k + 1) - s[j].size,
    decreases k,
{
    if k > 0 {
        lemma_off_remove(s, j, k - 1);
        assert(s.remove(j)[k - 1] == if k - 1 < j {
            s[k - 1]
        } else {
            s[k]
        });
        assert(off(s, k) == off(s, k - 1) + s[k - 1].size);
        assert(off(s, k + 1) == off(s, k) + s[k].size);
    }
}

pub proof fn lemma_used_update(s: Seq<Block>, j: int, b: Block, k: int)
    requires
        0 <= j < s.len(),
        0 <= k <= s.len(),
    ensures
        k <= j ==> used_total(s.update(j, b), k) == used_total(s, k),
        k > j ==> used_total(s.update(j, b), k) == used_total(s, k) + ucontrib(b) - ucontrib(s[j]),
    decreases k,
{
    if k > 0 {
        lemma_used_update(s, j, b, k - 1);
    }
}

pub proof fn lemma_used_insert(s: Seq<Block>, j: int, b: Block, k: int)
    requires
        0 <= j <= s.len(),
        0 <= k <= s.len() + 1,
    ensures
        k <= j ==> used_total(s.insert(j, b), k) == used_total(s, k),
        k > j ==> used_total(s.insert(j, b), k) == used_total(s, k - 1) + ucontrib(b),
    decreases k,
{
    if k > 0 {
        lemma_used_insert(s, j, b, k - 1);
    }
}

pub proof fn lemma_used_remove(s: Seq<Block>, j: int, k: int)
    requires
        0 <= j < s.len(),
        0 <= k <= s.len() - 1,
    ensures
        k <= j ==> used_total(s.remove(j), k) == used_total(s, k),
        k > j ==> used_total(s.remove(j), k) == used_total(s, k + 1) - ucontrib(s[j]),
    decreases k,
{
    if k > 0 {
        lemma_used_remove(s, j, k - 1);
        assert(s.remove(j)[k - 1] == if k - 1 < j {
            s[k - 1]
        } else {
            s[k]
        });
        assert(used_total(s, k) == used_total(s, k - 1) + ucontrib(s[k - 1]));
        assert(used_total(s, k + 1) == used_total(s, k) + ucontrib(s[k]));
    }
}

/// The allocated total never exceeds the span of the blocks summed over.
pub proof fn lemma_used_le_off(s: Seq<Block>, k: int)
    requires
        0 <= k <= s.len(),
    ensures
        0 <= used_total(s, k),
        used_total(s, k) <= off(s, k),
    decreases k,
{
    if k > 0 {
        lemma_used_le_off(s, k - 1);
    }
}

/// A free block's size fits in the gap between the allocated total and the span.
pub proof fn lemma_used_le_off_minus(s: Seq<Block>, k: int, j: int)
    requires
        0 <= j < k <= s.len(),
        !s[j].used,
    ensures
        used_total(s, k) + s[j].size <= off(s, k),
    decreases k,
{
    if k - 1 == j {
        lemma_used_le_off(s, k - 1);
    } else {
        lemma_used_le_off_minus(s, k - 1, j);
    }
}

/// A used block's size is counted inside the allocated total.
pub proof fn lemma_used_at_least(s: Seq<Block>, k: int, j: int)
    requires
        0 <= j < k <= s.len(),
        s[j].used,
    ensures
        used_total(s, k) >= s[j].size + used_total(s, j),
        used_total(s, j) >= 0,
    decreases k,
{
    lemma_used_le_off(s, j);
    if k - 1 > j {
        lemma_used_at_least(s, k - 1, j);
    }
}

/// How offsets move when block `j` is split into `b1` followed by `b2`.
pub proof fn lemma_split_offsets(s: Seq<Block>, j: int, b1: Block, b2: Block)
    requires
        0 <= j < s.len(),
        b1.size + b2.size == s[j].size,
    ensures
        s.update(j, b1).insert(j + 1, b2).len() == s.len() + 1,
        forall|k: int| 0 <= k <= j ==> off(s.update(j, b1).insert(j + 1, b2), k) == off(s, k),
        off(s.update(j, b1).insert(j + 1, b2), j + 1) == off(s, j) + b1.size,
        forall|k: int|
            j + 1 <= k <= s.len() ==> off(s.update(j, b1).insert(j + 1, b2), k + 1) == off(s, k),
{
    let s1 = s.update(j, b1);
    let s2 = s1.insert(j + 1, b2);
    assert forall|k: int| 0 <= k <= j implies off(s2, k) == off(s, k) by {
        lemma_off_update(s, j, b1, k);
        lemma_off_insert(s1, j + 1, b2, k);
    }
    assert(off(s2, j + 1) == off(s, j) + b1.size) by {
        lemma_off_update(s, j, b1, j);
        lemma_off_insert(s1, j + 1, b2, j + 1);
        assert(off(s1, j + 1) == off(s1, j) + s1[j].size);
    }
    assert forall|k: int| j + 1 <= k <= s.len() implies off(s2, k + 1) == off(s, k) by {
        lemma_off_update(s, j, b1, k);
        lemma_off_insert(s1, j + 1, b2, k + 1);
    }
}

// ------------------------------------------------------------------
// The instance.
// ------------------------------------------------------------------

/// The allocator instance. `empty()` yields it uninitialized; `init` carves
/// the arena once; `allocate` and `free` then serve requests against it.
pub struct O1Heap {
    pub ready: bool,
    pub base: usize,
    pub capacity: usize,
    pub blocks: Vec<Block>,
    pub bins: Vec<Vec<FreeRef>>,
    pub mask: u64,
    pub allocated: usize,
    pub peak_allocated: usize,
    pub peak_request: usize,
    pub oom_count: u64,
}

/// Address `p` is the payload of a currently used block of `h`.
pub open spec fn is_live_payload(h: &O1Heap, p: usize) -> bool {
    exists|j: int|
        0 <= j < h.blocks@.len() && (#[trigger] h.blocks@[j]).used && h.base + off(h.blocks@, j)
            + HEADER_SIZE == p
}

/// Address `p` is the payload of a used block of `h` whose total size is at
/// least `need`: the byte range the caller may use is covered by that block.
pub open spec fn live_payload_spans(h: &O1Heap, p: usize, need: int) -> bool {
    exists|j: int|
        0 <= j < h.blocks@.len() && (#[trigger] h.blocks@[j]).used && h.base + off(h.blocks@, j)
            + HEADER_SIZE == p && need <= h.blocks@[j].size
}

/// From `h0` to `h1`, payload `p` was served by one used block, and the
/// allocated counter grew by exactly that block's size.
pub open spec fn served_block(h0: &O1Heap, h1: &O1Heap, p: usize) -> bool {
    exists|j: int|
        0 <= j < h1.blocks@.len() && (#[trigger] h1.blocks@[j]).used && h1.base + off(
            h1.blocks@,
            j,
        ) + HEADER_SIZE == p && h1.allocated == h0.allocated + h1.blocks@[j].size
}

/// The index of the used block whose payload is `p`.
pub open spec fn payload_block(h: &O1Heap, p: usize) -> int {
    choose|j: int|
        0 <= j < h.blocks@.len() && (#[trigger] h.blocks@[j]).used && h.base + off(h.blocks@, j)
            + HEADER_SIZE == p
}

/// What the block list becomes when used block `j` is freed: it is marked
/// free, then fused with its right physical neighbor if that one is free,
/// then with its left one — exactly the deallocation engine's steps.
pub open spec fn coalesced_at(bs: Seq<Block>, j: int) -> Seq<Block> {
    let bsa = bs.update(j, (Block { size: bs[j].size, used: false }));
    let bsb = if j + 1 < bs.len() && !bs[j + 1].used {
        bsa.update(
            j,
            (Block { size: (bsa[j].size + bsa[j + 1].size) as usize, used: false }),
        ).remove(j + 1)
    } else {
        bsa
    };
    if j > 0 && !bs[j - 1].used {
        bsb.update(
            j - 1,
            (Block { size: (bsb[j - 1].size + bsb[j].size) as usize, used: false }),
        ).remove(j)
    } else {
        bsb
    }
}

/// The largest request currently guaranteed to succeed: what the head block
/// of the highest occupied bin can hold beyond its header, or zero when no
/// free block exists.
pub open spec fn max_alloc_spec(h: &O1Heap) -> int {
    let t = top_bit(h.mask, 63);
    if t < 0 {
        0
    } else {
        h.bins@[t]@[h.bins@[t]@.len() - 1].size - HEADER_SIZE
    }
}

/// The registries of `a` and `b` agree: same blocks, same bins, same mask.
pub open spec fn same_registry(a: &O1Heap, b: &O1Heap) -> bool {
    a.blocks@ == b.blocks@ && a.bins == b.bins && a.mask == b.mask
}

impl O1Heap {
    /// The instance has been initialized with an arena.
    pub open spec fn initialized(&self) -> bool {
        self.ready
    }

    /// Well-formedness of an initialized instance: the blocks partition the
    /// arena into aligned, minimal-or-larger regions with no two adjacent
    /// free ones; the registry lists exactly the free blocks, each in the bin
    /// of its size; the mask mirrors bin occupancy; and the allocated counter
    /// is the total size of the used blocks.
    /// Registry coherence: everything well-formedness asks of an initialized
    /// instance except that adjacent free blocks are already coalesced. It is
    /// the invariant that holds between the steps of a coalescing pass.
    pub open spec fn coherent(&self) -> bool {
        &&& self.bins@.len() == NUM_BINS
        &&& self.capacity >= MIN_BLOCK
        &&& self.capacity as int % (ALIGNMENT as int) == 0
        &&& self.base != 0
        &&& self.base as int % (ALIGNMENT as int) == 0
        &&& self.base + self.capacity <= usize::MAX
        &&& blocks_sized(self.blocks@)
        &&& off(self.blocks@, self.blocks@.len() as int) == self.capacity
        &&& entries_valid(self.blocks@, self.bins@)
        &&& frees_binned(self.blocks@, self.bins@)
        &&& bins_unique(self.bins@)
        &&& mask_matches(self.bins@, self.mask)
        &&& self.allocated == used_total(self.blocks@, self.blocks@.len() as int)
    }

    pub open spec fn wf_core(&self) -> bool {
        &&& self.coherent()
        &&& no_adjacent_free(self.blocks@)
        &&& self.allocated <= self.peak_allocated
        &&& self.peak_allocated <= self.capacity
    }

    pub open spec fn wf(&self) -> bool {
        self.ready ==> self.wf_core()
    }

    /// Create a new uninitialized heap; `init` must be called before any
    /// other operation.
    pub fn empty() -> (r: O1Heap)
        ensures
            !r.initialized(),
            r.wf(),
    {
        O1Heap {
            ready: false,
            base: 0,
            capacity: 0,
            blocks: Vec::new(),
            bins: Vec::new(),
            mask: 0,
            allocated: 0,
            peak_allocated: 0,
            peak_request: 0,
            oom_count: 0,
        }
    }

    /// Validate and carve the arena: the whole usable capacity becomes one
    /// free block, registered in its bin, with diagnostics zeroed. Fails
    /// exactly for a null or misaligned base, an arena smaller than
    /// `min_arena_size()`, or one overrunning the address space.
    pub fn init(&mut self, base: usize, size: usize) -> (r: Result<(), InitError>)
        requires
            !old(self).initialized(),
        ensures
            final(self).wf(),
            r is Ok <==> (base != 0 && base as int % (ALIGNMENT as int) == 0 && size >= MIN_BLOCK
                && base + size <= usize::MAX),
            r is Ok ==> final(self).initialized() && final(self).base == base
                && final(self).capacity == arena_capacity(size) && final(self).allocated == 0
                && final(self).peak_allocated == 0 && final(self).peak_request == 0
                && final(self).oom_count == 0
                && max_alloc_spec(final(self)) == arena_capacity(size) - HEADER_SIZE,
            !(r is Ok) ==> *final(self) == *old(self) && !final(self).initialized(),
    {
        if base == 0 || base % ALIGNMENT != 0 || size < MIN_BLOCK || base > usize::MAX - size {
            return Err(InitError);
        }
        let capacity = size - size % ALIGNMENT;
        let mut bins: Vec<Vec<FreeRef>> = Vec::new();
        let mut i: usize = 0;
        while i < NUM_BINS
            invariant
                bins@.len() == i,
                i <= NUM_BINS,
                forall|k: int| 0 <= k < i ==> (#[trigger] bins@[k])@.len() == 0,
            decreases NUM_BINS - i,
        {
            bins.push(Vec::new());
            i = i + 1;
        }
        let mut blocks: Vec<Block> = Vec::new();
        blocks.push(Block { size: capacity, used: false });
        let lg = log2_floor(capacity as u64);
        let b = lg.0;
        let bu = b as usize;
        bins[bu].push(FreeRef { off: 0, size: capacity });
        let mask: u64 = 1u64 << b;
        self.ready = true;
        self.base = base;
        self.capacity = capacity;
        self.blocks = blocks;
        self.bins = bins;
        self.mask = mask;
        self.allocated = 0;
        self.peak_allocated = 0;
        self.peak_request = 0;
        self.oom_count = 0;
        proof {
            reveal(entries_valid);
            reveal(frees_binned);
            reveal(bins_unique);
            reveal(mask_matches);
            let bs = self.blocks@;
            let bn = self.bins@;
            assert(bs.len() == 1);
            assert(bs[0] == Block { size: capacity, used: false });
            assert(off(bs, 0) == 0);
            assert(off(bs, 1) == capacity);
            assert(used_total(bs, 0) == 0);
            assert(ucontrib(bs[0]) == 0);
            assert(used_total(bs, 1) == 0);
            assert forall|i2: u64| i2 < 64 implies (bit64(self.mask, i2) <==> (
            #[trigger] bn[i2 as int])@.len() > 0) by {
                lemma_bit_single(b, i2);
            }
            assert forall|i2: int, k: int|
                0 <= i2 < bn.len() && 0 <= k < bn[i2]@.len() implies (exists|j: int|
                entry_matches(bs, #[trigger] bn[i2]@[k], j)) && log2(bn[i2]@[k].size as int)
                == i2 by {
                assert(i2 == bu as int && k == 0);
                assert(entry_matches(bs, bn[i2]@[k], 0));
            }
            assert(free_in_bin(bs, bn, 0)) by {
                assert((bn[log2(bs[0].size as int)]@[0]).off == off(bs, 0));
            }
            assert(top_bit(self.mask, 63) == b as int) by {
                lemma_top_bit(self.mask, 63);
                lemma_bit_single(b, b);
                let t = top_bit(self.mask, 63);
                if t >= 0 {
                    lemma_bit_single(b, t as u64);
                }
            }
        }
        Ok(())
    }
}

impl O1Heap {
    /// The largest single request presently guaranteed satisfiable: what the
    /// head block of the highest occupied bin holds beyond its header.
    ///
    /// Reading the head block's own size — rather than the bin's nominal
    /// power-of-two range — is a deliberate choice: it makes `allocate`
    /// succeed *exactly* on requests up to this value, and makes the value
    /// equal the full usable capacity whenever the arena is fully coalesced,
    /// for arenas of any size. The price is that the value is not monotone
    /// across operations: popping a bin's head can expose a larger block
    /// behind it, raising the report even though free space only shrank.
    pub fn max_allocation_size(&self) -> (r: usize)
        requires
            self.wf(),
            self.initialized(),
        ensures
            r as int == max_alloc_spec(self),
    {
        match highest_set_bit(self.mask) {
            None => 0,
            Some(i) => {
                let iu = i as usize;
                proof {
                    reveal(mask_matches);
                    lemma_top_bit(self.mask, 63);
                    assert(bit64(self.mask, i));
                    assert(self.bins@[i as int]@.len() > 0);
                    let k = self.bins@[i as int]@.len() - 1;
                    let jw = lemma_entry_witness(self.blocks@, self.bins@, i as int, k);
                }
                let bl = self.bins[iu].len();
                self.bins[iu][bl - 1].size - HEADER_SIZE
            },
        }
    }

    /// A copy of the incrementally maintained counters.
    pub fn diagnostics(&self) -> (d: Diagnostics)
        requires
            self.wf(),
            self.initialized(),
        ensures
            d.capacity == self.capacity,
            d.allocated == self.allocated,
            d.peak_allocated == self.peak_allocated,
            d.peak_request == self.peak_request,
            d.oom_count == self.oom_count,
    {
        Diagnostics {
            capacity: self.capacity,
            allocated: self.allocated,
            peak_allocated: self.peak_allocated,
            peak_request: self.peak_request,
            oom_count: self.oom_count,
        }
    }
}


/// After popping the head of bin `bi` (which names block `jj`) and splitting
/// that block into a used front of `required` bytes and a free remainder
/// registered in bin `lb`, every registry invariant holds again.
#[verifier::rlimit(100)]
pub proof fn lemma_take_split(
    bs0: Seq<Block>,
    bn0: Seq<Vec<FreeRef>>,
    bn1: Seq<Vec<FreeRef>>,
    bn2: Seq<Vec<FreeRef>>,
    m1: u64,
    m2: u64,
    bi: u64,
    lb: u64,
    jj: int,
    e: FreeRef,
    required: usize,
    leftover: usize,
    nr: FreeRef,
)
    requires
        blocks_sized(bs0),
        no_adjacent_free(bs0),
        entries_valid(bs0, bn0),
        frees_binned(bs0, bn0),
        bins_unique(bn0),
        bn0.len() == 64,
        bn1.len() == 64,
        bn2.len() == 64,
        bi < 64,
        lb < 64,
        bn0[bi as int]@.len() > 0,
        e == bn0[bi as int]@[bn0[bi as int]@.len() - 1],
        0 <= jj < bs0.len(),
        entry_matches(bs0, e, jj),
        required + leftover == e.size,
        MIN_BLOCK <= required,
        required as int % (ALIGNMENT as int) == 0,
        MIN_BLOCK <= leftover,
        lb as int == log2(leftover as int),
        nr.off == e.off + required,
        nr.size == leftover,
        bn1[bi as int]@ == bn0[bi as int]@.subrange(0, bn0[bi as int]@.len() - 1),
        forall|i: int| 0 <= i < 64 && i != bi as int ==> bn1[i] == bn0[i],
        mask_matches(bn1, m1),
        bn2[lb as int]@ == bn1[lb as int]@.push(nr),
        forall|i: int| 0 <= i < 64 && i != lb as int ==> bn2[i] == bn1[i],
        forall|i: u64| i < 64 ==> bit64(m2, i) == (i == lb || bit64(m1, i)),
    ensures
        blocks_sized(
            bs0.update(jj, (Block { size: required, used: true })).insert(
                jj + 1,
                (Block { size: leftover, used: false }),
            ),
        ),
        off(
            bs0.update(jj, (Block { size: required, used: true })).insert(
                jj + 1,
                (Block { size: leftover, used: false }),
            ),
            bs0.len() as int + 1,
        ) == off(bs0, bs0.len() as int),
        no_adjacent_free(
            bs0.update(jj, (Block { size: required, used: true })).insert(
                jj + 1,
                (Block { size: leftover, used: false }),
            ),
        ),
        entries_valid(
            bs0.update(jj, (Block { size: required, used: true })).insert(
                jj + 1,
                (Block { size: leftover, used: false }),
            ),
            bn2,
        ),
        frees_binned(
            bs0.update(jj, (Block { size: required, used: true })).insert(
                jj + 1,
                (Block { size: leftover, used: false }),
            ),
            bn2,
        ),
        bins_unique(bn2),
        mask_matches(bn2, m2),
        used_total(
            bs0.update(jj, (Block { size: required, used: true })).insert(
                jj + 1,
                (Block { size: leftover, used: false }),
            ),
            bs0.len() as int + 1,
        ) == used_total(bs0, bs0.len() as int) + required,
        off(
            bs0.update(jj, (Block { size: required, used: true })).insert(
                jj + 1,
                (Block { size: leftover, used: false }),
            ),
            jj,
        ) == e.off,
{
    reveal(entries_valid);
    reveal(frees_binned);
    reveal(bins_unique);
    reveal(mask_matches);
    let len0 = bs0.len() as int;
    let bii = bi as int;
    let lbi = lb as int;
    let b1 = Block { size: required, used: true };
    let b2 = Block { size: leftover, used: false };
    let bs2 = bs0.update(jj, b1).insert(jj + 1, b2);
    lemma_split_offsets(bs0, jj, b1, b2);
    assert(log2(e.size as int) == bii);
    assert(leftover as int % (ALIGNMENT as int) == 0);
    // blocks remain aligned and minimal
    assert forall|k: int| 0 <= k < bs2.len() implies (#[trigger] bs2[k]).size >= MIN_BLOCK
        && bs2[k].size as int % (ALIGNMENT as int) == 0 by {
        if k > jj + 1 {
            assert(bs2[k] == bs0[k - 1]);
        }
    }
    // no two adjacent free blocks
    assert forall|k: int|
        0 <= k && k + 1 < bs2.len() && !(#[trigger] bs2[k]).used implies bs2[k + 1].used by {
        if k > jj + 1 {
            assert(bs2[k] == bs0[k - 1] && bs2[k + 1] == bs0[k]);
        } else if k == jj + 1 {
            assert(bs2[k + 1] == bs0[jj + 1]);
            assert(!bs0[jj].used);
        } else if k < jj {
            assert(bs2[k] == bs0[k]);
            if k + 1 < jj {
                assert(bs2[k + 1] == bs0[k + 1]);
            }
        }
    }
    // every registry entry still names a free block in its bin
    assert forall|i: int, k: int|
        0 <= i < bn2.len() && 0 <= k < bn2[i]@.len() implies (exists|jx: int|
        entry_matches(bs2, #[trigger] bn2[i]@[k], jx)) && log2(bn2[i]@[k].size as int) == i by {
        if i == lbi && k == bn2[i]@.len() - 1 {
            assert(bn2[i]@[k] == nr);
            assert(off(bs2, jj + 1) == e.off + required);
            assert(entry_matches(bs2, nr, jj + 1));
        } else {
            assert(bn2[i]@[k] == bn0[i]@[k]);
            let e2 = bn0[i]@[k];
            let jw2 = lemma_entry_witness(bs0, bn0, i, k);
            if jw2 == jj {
                assert(log2(e2.size as int) == log2(e.size as int));
                assert(i == bii);
                assert(k < bn0[bii]@.len() - 1);
                assert(bn0[bii]@[k].off == e2.off && bn0[bii]@[bn0[bii]@.len() - 1].off == e.off);
                assert(false);
            }
            if jw2 < jj {
                assert(bs2[jw2] == bs0[jw2]);
                assert(entry_matches(bs2, e2, jw2));
            } else {
                assert(bs2[jw2 + 1] == bs0[jw2]);
                assert(entry_matches(bs2, e2, jw2 + 1));
            }
        }
    }
    // every free block is still registered
    assert forall|j2: int|
        0 <= j2 < bs2.len() && !(#[trigger] bs2[j2]).used implies free_in_bin(bs2, bn2, j2) by {
        if j2 == jj + 1 {
            assert(bn2[lbi]@[bn2[lbi]@.len() - 1] == nr);
            assert(off(bs2, j2) == nr.off);
            assert(free_in_bin(bs2, bn2, j2));
        } else {
            let jold = if j2 < jj {
                j2
            } else {
                j2 - 1
            };
            assert(bs2[j2] == bs0[jold] && off(bs2, j2) == off(bs0, jold));
            assert(!bs0[jold].used && jold != jj);
            let b = log2(bs0[jold].size as int);
            lemma_log2_le63(bs0[jold].size as int);
            let k = choose|k: int|
                0 <= k < bn0[b]@.len() && (#[trigger] bn0[b]@[k]).off == off(bs0, jold)
                    && bn0[b]@[k].size == bs0[jold].size;
            if b == bii && k == bn0[bii]@.len() - 1 {
                assert(bn0[b]@[k].off == off(bs0, jold));
                assert(e.off == off(bs0, jj));
                lemma_off_injective(bs0, jold, jj);
                assert(false);
            }
            assert(bn1[b]@[k] == bn0[b]@[k]);
            assert(bn2[b]@[k] == bn0[b]@[k]);
            assert(free_in_bin(bs2, bn2, j2));
        }
    }
    // per-bin offsets stay pairwise distinct
    assert forall|i: int, k1: int, k2: int|
        0 <= i < bn2.len() && 0 <= k1 < k2 < bn2[i]@.len() implies (#[trigger] bn2[i]@[k1]).off
        != (#[trigger] bn2[i]@[k2]).off by {
        if i == lbi && k2 == bn2[i]@.len() - 1 {
            assert(bn2[i]@[k1] == bn0[i]@[k1]);
            let jw2 = lemma_entry_witness(bs0, bn0, i, k1);
            if jw2 == jj {
                assert(i == bii && k1 < bn0[bii]@.len() - 1);
                assert(false);
            }
            if jw2 < jj {
                lemma_off_bounds(bs0, jw2, jj);
            } else {
                lemma_off_bounds(bs0, jj + 1, jw2);
                assert(off(bs0, jj + 1) == off(bs0, jj) + e.size);
            }
            assert(bn2[i]@[k1].off != nr.off);
        }
    }
    // the mask still mirrors bin occupancy
    assert forall|i: u64| i < 64 implies (bit64(m2, i) <==> (#[trigger] bn2[i as int])@.len()
        > 0) by {
        assert(bit64(m2, i) == (i == lb || bit64(m1, i)));
    }
    // the allocated counter is exactly the used total
    lemma_used_update(bs0, jj, b1, len0);
    lemma_used_insert(bs0.update(jj, b1), jj + 1, b2, len0 + 1);
}

/// After popping the head of bin `bi` (which names block `jj`) and marking
/// the whole block used, every registry invariant holds again.
#[verifier::rlimit(100)]
pub proof fn lemma_take_absorb(
    bs0: Seq<Block>,
    bn0: Seq<Vec<FreeRef>>,
    bn1: Seq<Vec<FreeRef>>,
    m1: u64,
    bi: u64,
    jj: int,
    e: FreeRef,
)
    requires
        blocks_sized(bs0),
        no_adjacent_free(bs0),
        entries_valid(bs0, bn0),
        frees_binned(bs0, bn0),
        bins_unique(bn0),
        bn0.len() == 64,
        bn1.len() == 64,
        bi < 64,
        bn0[bi as int]@.len() > 0,
        e == bn0[bi as int]@[bn0[bi as int]@.len() - 1],
        0 <= jj < bs0.len(),
        entry_matches(bs0, e, jj),
        bn1[bi as int]@ == bn0[bi as int]@.subrange(0, bn0[bi as int]@.len() - 1),
        forall|i: int| 0 <= i < 64 && i != bi as int ==> bn1[i] == bn0[i],
        mask_matches(bn1, m1),
    ensures
        blocks_sized(bs0.update(jj, (Block { size: e.size, used: true }))),
        off(bs0.update(jj, (Block { size: e.size, used: true })), bs0.len() as int) == off(
            bs0,
            bs0.len() as int,
        ),
        no_adjacent_free(bs0.update(jj, (Block { size: e.size, used: true }))),
        entries_valid(bs0.update(jj, (Block { size: e.size, used: true })), bn1),
        frees_binned(bs0.update(jj, (Block { size: e.size, used: true })), bn1),
        bins_unique(bn1),
        used_total(bs0.update(jj, (Block { size: e.size, used: true })), bs0.len() as int)
            == used_total(bs0, bs0.len() as int) + e.size,
        off(bs0.update(jj, (Block { size: e.size, used: true })), jj) == e.off,
{
    reveal(entries_valid);
    reveal(frees_binned);
    reveal(bins_unique);
    let len0 = bs0.len() as int;
    let bii = bi as int;
    let b1 = Block { size: e.size, used: true };
    let bs2 = bs0.update(jj, b1);
    assert(log2(e.size as int) == bii);
    assert forall|k: int| 0 <= k <= len0 implies off(bs2, k) == off(bs0, k) by {
        lemma_off_update(bs0, jj, b1, k);
    }
    assert forall|i: int, k: int|
        0 <= i < bn1.len() && 0 <= k < bn1[i]@.len() implies (exists|jx: int|
        entry_matches(bs2, #[trigger] bn1[i]@[k], jx)) && log2(bn1[i]@[k].size as int) == i by {
        assert(bn1[i]@[k] == bn0[i]@[k]);
        let e2 = bn0[i]@[k];
        let jw2 = lemma_entry_witness(bs0, bn0, i, k);
        if jw2 == jj {
            assert(log2(e2.size as int) == log2(e.size as int));
            assert(i == bii);
            assert(k < bn0[bii]@.len() - 1);
            assert(bn0[bii]@[k].off == e2.off && bn0[bii]@[bn0[bii]@.len() - 1].off == e.off);
            assert(false);
        }
        assert(bs2[jw2] == bs0[jw2]);
        assert(entry_matches(bs2, e2, jw2));
    }
    assert forall|j2: int|
        0 <= j2 < bs2.len() && !(#[trigger] bs2[j2]).used implies free_in_bin(bs2, bn1, j2) by {
        assert(bs2[j2] == bs0[j2] && off(bs2, j2) == off(bs0, j2));
        assert(!bs0[j2].used && j2 != jj);
        let b = log2(bs0[j2].size as int);
        lemma_log2_le63(bs0[j2].size as int);
        let k = choose|k: int|
            0 <= k < bn0[b]@.len() && (#[trigger] bn0[b]@[k]).off == off(bs0, j2)
                && bn0[b]@[k].size == bs0[j2].size;
        if b == bii && k == bn0[bii]@.len() - 1 {
            assert(bn0[b]@[k].off == off(bs0, j2));
            assert(e.off == off(bs0, jj));
            lemma_off_injective(bs0, j2, jj);
            assert(false);
        }
        assert(bn1[b]@[k] == bn0[b]@[k]);
        assert(free_in_bin(bs2, bn1, j2));
    }
    assert forall|i: int, k1: int, k2: int|
        0 <= i < bn1.len() && 0 <= k1 < k2 < bn1[i]@.len() implies (#[trigger] bn1[i]@[k1]).off
        != (#[trigger] bn1[i]@[k2]).off by {
        assert(bn1[i]@[k1] == bn0[i]@[k1] && bn1[i]@[k2] == bn0[i]@[k2]);
    }
    lemma_used_update(bs0, jj, b1, len0);
}


/// Splitting a free block leaves every live payload in place.
pub proof fn lemma_live_split(h0: &O1Heap, h1: &O1Heap, jj: int, b1: Block, b2: Block)
    requires
        h1.base == h0.base,
        0 <= jj < h0.blocks@.len(),
        !h0.blocks@[jj].used,
        b1.size + b2.size == h0.blocks@[jj].size,
        h1.blocks@ == h0.blocks@.update(jj, b1).insert(jj + 1, b2),
    ensures
        forall|q: usize| is_live_payload(h0, q) ==> is_live_payload(h1, q),
{
    let bs0 = h0.blocks@;
    let bs2 = h1.blocks@;
    lemma_split_offsets(bs0, jj, b1, b2);
    assert forall|q: usize| is_live_payload(h0, q) implies is_live_payload(h1, q) by {
        let jw = choose|jw: int|
            0 <= jw < bs0.len() && (#[trigger] bs0[jw]).used && h0.base + off(bs0, jw)
                + HEADER_SIZE == q;
        if jw < jj {
            assert(bs2[jw] == bs0[jw] && off(bs2, jw) == off(bs0, jw));
            assert(bs2[jw].used && h1.base + off(bs2, jw) + HEADER_SIZE == q);
        } else {
            assert(bs2[jw + 1] == bs0[jw] && off(bs2, jw + 1) == off(bs0, jw));
            assert(bs2[jw + 1].used && h1.base + off(bs2, jw + 1) + HEADER_SIZE == q);
        }
    }
}

/// Replacing a free block by one of the same size leaves every live payload
/// in place.
pub proof fn lemma_live_update(h0: &O1Heap, h1: &O1Heap, jj: int, b1: Block)
    requires
        h1.base == h0.base,
        0 <= jj < h0.blocks@.len(),
        !h0.blocks@[jj].used,
        b1.size == h0.blocks@[jj].size,
        h1.blocks@ == h0.blocks@.update(jj, b1),
    ensures
        forall|q: usize| is_live_payload(h0, q) ==> is_live_payload(h1, q),
{
    let bs0 = h0.blocks@;
    let bs2 = h1.blocks@;
    assert forall|q: usize| is_live_payload(h0, q) implies is_live_payload(h1, q) by {
        let jw = choose|jw: int|
            0 <= jw < bs0.len() && (#[trigger] bs0[jw]).used && h0.base + off(bs0, jw)
                + HEADER_SIZE == q;
        assert(bs2[jw] == bs0[jw]);
        lemma_off_update(bs0, jj, b1, jw);
        assert(bs2[jw].used && h1.base + off(bs2, jw) + HEADER_SIZE == q);
    }
}

impl O1Heap {
    /// Pop the head block of bin `bi`, split off what the request does not
    /// need when the remainder can stand as a block of its own, mark the
    /// front portion used, and return its payload address.
    #[verifier::rlimit(100)]
    #[verifier::spinoff_prover]
    fn take_from_bin(&mut self, bi: u64, required: usize) -> (p: usize)
        requires
            old(self).wf_core(),
            old(self).ready,
            bi < 64,
            bit64(old(self).mask, bi),
            old(self).bins@[bi as int]@.len() > 0,
            old(self).bins@[bi as int]@[old(self).bins@[bi as int]@.len() - 1].size >= required,
            MIN_BLOCK <= required,
            required as int % (ALIGNMENT as int) == 0,
            required <= old(self).capacity,
        ensures
            final(self).wf_core(),
            final(self).ready,
            final(self).base == old(self).base,
            final(self).capacity == old(self).capacity,
            final(self).oom_count == old(self).oom_count,
            final(self).peak_request == old(self).peak_request,
            old(self).allocated + required <= final(self).allocated,
            final(self).allocated < old(self).allocated + required + MIN_BLOCK,
            final(self).peak_allocated == if final(self).allocated > old(self).peak_allocated {
                final(self).allocated as int
            } else {
                old(self).peak_allocated as int
            },
            is_live_payload(final(self), p),
            !is_live_payload(old(self), p),
            live_payload_spans(final(self), p, required as int),
            served_block(old(self), final(self), p),
            forall|q: usize| is_live_payload(old(self), q) ==> is_live_payload(final(self), q),
            p as int % (ALIGNMENT as int) == 0,
            old(self).base + HEADER_SIZE <= p,
            p + required <= old(self).base + old(self).capacity + HEADER_SIZE,
    {
        let ghost bs0 = old(self).blocks@;
        let ghost bn0 = old(self).bins@;
        let ghost m0 = old(self).mask;
        let ghost len0 = bs0.len() as int;
        let biu = bi as usize;
        let bl = self.bins[biu].len();
        let e = self.bins[biu][bl - 1];
        proof {
            let jw = lemma_entry_witness(bs0, bn0, bi as int, bl - 1);
        }
        let _popped = self.bins[biu].pop();
        if self.bins[biu].len() == 0 {
            self.mask = self.mask & !(1u64 << bi);
        }
        let ghost bn1 = self.bins@;
        let ghost m1 = self.mask;
        proof {
            reveal(mask_matches);
            assert(bn1[bi as int]@ == bn0[bi as int]@.subrange(0, bn0[bi as int]@.len() - 1));
            assert(forall|i: int| 0 <= i < 64 && i != bi as int ==> bn1[i] == bn0[i]);
            assert forall|i: u64| i < 64 implies (bit64(m1, i) <==> (#[trigger] bn1[i as int])@.len()
                > 0) by {
                if bn1[bi as int]@.len() == 0 {
                    lemma_bit_and_not(m0, bi, i);
                }
            }
            assert(mask_matches(bn1, m1));
        }
        let j = find_index(&self.blocks, e.off);
        proof {
            let jw = lemma_entry_witness(bs0, bn0, bi as int, bl - 1);
            lemma_off_injective(bs0, j as int, jw);
            assert(!bs0[j as int].used && bs0[j as int].size == e.size);
            lemma_off_bounds(bs0, j as int, len0);
            lemma_off_aligned(bs0, j as int);
            lemma_used_le_off(bs0, len0);
            lemma_used_le_off_minus(bs0, len0, j as int);
        }
        let block_count = self.blocks.len();
        let s = self.blocks[j].size;
        let leftover = s - required;
        let p = self.base + e.off + HEADER_SIZE;
        proof {
            assert(!is_live_payload(old(self), p)) by {
                if is_live_payload(old(self), p) {
                    let k = choose|k: int|
                        0 <= k < bs0.len() && (#[trigger] bs0[k]).used && old(self).base + off(
                            bs0,
                            k,
                        ) + HEADER_SIZE == p;
                    lemma_off_injective(bs0, k, j as int);
                }
            }
        }
        if leftover >= MIN_BLOCK {
            self.blocks[j] = Block { size: required, used: true };
            self.blocks.insert(j + 1, Block { size: leftover, used: false });
            let lg2 = log2_floor(leftover as u64);
            let lb = lg2.0;
            let lbu = lb as usize;
            let nr = FreeRef { off: e.off + required, size: leftover };
            self.bins[lbu].push(nr);
            self.mask = self.mask | (1u64 << lb);
            self.allocated = self.allocated + required;
            if self.allocated > self.peak_allocated {
                self.peak_allocated = self.allocated;
            }
            proof {
                let jj = j as int;
                let b1 = Block { size: required, used: true };
                let b2 = Block { size: leftover, used: false };
                let bs2 = self.blocks@;
                let bn2 = self.bins@;
                let m2 = self.mask;
                assert(bs2 == bs0.update(jj, b1).insert(jj + 1, b2));
                assert(bn2[lb as int]@ == bn1[lb as int]@.push(nr));
                assert(forall|i: int| 0 <= i < 64 && i != lb as int ==> bn2[i] == bn1[i]);
                assert forall|i: u64| i < 64 implies bit64(m2, i) == (i == lb || bit64(m1, i)) by {
                    lemma_bit_or(m1, lb, i);
                }
                lemma_take_split(bs0, bn0, bn1, bn2, m1, m2, bi, lb, jj, e, required, leftover, nr);
                assert(self.allocated == used_total(bs2, len0 + 1));
                lemma_used_le_off(bs2, len0 + 1);
                assert(is_live_payload(self, p)) by {
                    assert(bs2[jj].used && off(bs2, jj) == e.off);
                }
                assert(live_payload_spans(self, p, required as int)) by {
                    assert(bs2[jj].used && off(bs2, jj) == e.off && bs2[jj].size == required);
                }
                assert(served_block(old(self), self, p)) by {
                    assert(bs2[jj].used && off(bs2, jj) == e.off && self.allocated == old(
                        self,
                    ).allocated + bs2[jj].size);
                }
                lemma_live_split(old(self), self, jj, b1, b2);
                assert(self.wf_core());
            }
        } else {
            self.blocks[j] = Block { size: s, used: true };
            self.allocated = self.allocated + s;
            if self.allocated > self.peak_allocated {
                self.peak_allocated = self.allocated;
            }
            proof {
                let jj = j as int;
                let b1 = Block { size: s, used: true };
                let bs2 = self.blocks@;
                assert(bs2 == bs0.update(jj, b1));
                assert(self.bins@ == bn1);
                assert(s == e.size);
                lemma_take_absorb(bs0, bn0, bn1, m1, bi, jj, e);
                assert(self.allocated == used_total(bs2, len0));
                lemma_used_le_off(bs2, len0);
                assert(is_live_payload(self, p)) by {
                    assert(bs2[jj].used && off(bs2, jj) == e.off);
                }
                assert(live_payload_spans(self, p, required as int)) by {
                    assert(bs2[jj].used && off(bs2, jj) == e.off && bs2[jj].size == s);
                }
                assert(served_block(old(self), self, p)) by {
                    assert(bs2[jj].used && off(bs2, jj) == e.off && self.allocated == old(
                        self,
                    ).allocated + bs2[jj].size);
                }
                lemma_live_update(old(self), self, jj, b1);
                assert(self.wf_core());
            }
        }
        p
    }
}


/// A bin whose lower size bound covers the request has a fitting head block.
pub proof fn lemma_alloc_head_fits(h: &O1Heap, i: u64, required: usize)
    requires
        h.wf_core(),
        i < 64,
        bit64(h.mask, i),
        p2(i as int) >= required,
    ensures
        h.bins@[i as int]@.len() > 0,
        h.bins@[i as int]@[h.bins@[i as int]@.len() - 1].size >= required,
{
    lemma_head_entry(h, i);
}

/// Whenever some bin holds a block that fits the request, the request is
/// within the reported maximum.
pub proof fn lemma_alloc_within_max(h: &O1Heap, bi: u64, required: usize, n: usize)
    requires
        h.wf_core(),
        bi < 64,
        bit64(h.mask, bi),
        h.bins@[bi as int]@.len() > 0,
        h.bins@[bi as int]@[h.bins@[bi as int]@.len() - 1].size >= required,
        required == required_size(n as int),
        1 <= n,
    ensures
        n as int <= max_alloc_spec(h),
{
    lemma_top_bit(h.mask, 63);
    let t = top_bit(h.mask, 63);
    lemma_head_entry(h, bi);
    lemma_head_entry(h, t as u64);
    if t > bi as int {
        lemma_p2_strict_mono(bi as int, t);
    }
}

/// When the exact bin's head is too small and no bin above the needed class
/// is occupied, the request exceeds the reported maximum.
pub proof fn lemma_alloc_beyond_max(
    h: &O1Heap,
    n: usize,
    required: usize,
    fl: u64,
    flp: u64,
    optimal: u64,
)
    requires
        h.wf_core(),
        1 <= n,
        required == required_size(n as int),
        required as int % (ALIGNMENT as int) == 0,
        fl < 64,
        fl as int == log2(required as int),
        flp as int == p2(fl as int),
        flp <= required,
        (required as int) < 2 * (flp as int),
        optimal == if required as u64 == flp {
            fl
        } else {
            (fl + 1) as u64
        },
        bit64(h.mask, fl) ==> h.bins@[fl as int]@.len() > 0 && h.bins@[fl as int]@[h.bins@[
            fl as int]@.len() - 1].size < required,
        forall|k: u64| optimal <= k < 64 ==> !bit64(h.mask, k),
    ensures
        max_alloc_spec(h) < n as int,
{
    lemma_top_bit(h.mask, 63);
    let t = top_bit(h.mask, 63);
    if t >= 0 {
        lemma_head_entry(h, t as u64);
        assert(!((optimal as int) <= t < 64));
        let hd = h.bins@[t]@[h.bins@[t]@.len() - 1];
        if t < fl as int {
            lemma_p2_mono(t + 1, fl as int);
            assert(hd.size < required);
        } else {
            assert(t == fl as int);
            assert(hd.size < required);
        }
        assert(hd.size as int <= required - ALIGNMENT);
        assert(max_alloc_spec(h) < n as int);
    }
}

impl O1Heap {
    /// Serve a request for `n` payload bytes: probe the bin of the required
    /// size for an exact-class fit, otherwise take the head of the smallest
    /// non-empty bin that guarantees one, splitting off the remainder when it
    /// can stand as a block of its own. Succeeds exactly for
    /// `1 <= n <= max_allocation_size()`; failure is an ordinary outcome that
    /// counts one out-of-memory event and changes nothing else.
    #[verifier::rlimit(100)]
    #[verifier::spinoff_prover]
    pub fn allocate(&mut self, n: usize) -> (r: Option<usize>)
        requires
            old(self).wf(),
            old(self).initialized(),
        ensures
            final(self).wf(),
            final(self).initialized(),
            final(self).base == old(self).base,
            final(self).capacity == old(self).capacity,
            r is Some <==> (1 <= n && n as int <= max_alloc_spec(old(self))),
            r is Some ==> r.unwrap() as int % (ALIGNMENT as int) == 0,
            r is Some ==> old(self).base + HEADER_SIZE <= r.unwrap(),
            r is Some ==> r.unwrap() + round_up_align(n as int) <= old(self).base + old(
                self,
            ).capacity,
            r is Some ==> is_live_payload(final(self), r.unwrap()),
            r is Some ==> !is_live_payload(old(self), r.unwrap()),
            r is Some ==> live_payload_spans(final(self), r.unwrap(), required_size(n as int)),
            r is Some ==> served_block(old(self), final(self), r.unwrap()),
            r is Some ==> (forall|q: usize|
                is_live_payload(old(self), q) ==> is_live_payload(final(self), q)),
            r is Some ==> final(self).peak_allocated == (if final(self).allocated > old(
                self,
            ).peak_allocated {
                final(self).allocated as int
            } else {
                old(self).peak_allocated as int
            }),
            r is Some ==> old(self).allocated + required_size(n as int) <= final(self).allocated,
            r is Some ==> final(self).allocated < old(self).allocated + required_size(n as int)
                + MIN_BLOCK,
            r is Some ==> final(self).oom_count == old(self).oom_count,
            r is Some ==> final(self).peak_request == (if n > old(self).peak_request {
                n as int
            } else {
                old(self).peak_request as int
            }),
            r is None ==> (same_registry(final(self), old(self))
                && final(self).allocated == old(self).allocated
                && final(self).peak_allocated == old(self).peak_allocated
                && final(self).peak_request == old(self).peak_request
                && max_alloc_spec(final(self)) == max_alloc_spec(old(self))),
            r is None && n >= 1 ==> final(self).oom_count == if old(self).oom_count < u64::MAX {
                old(self).oom_count + 1
            } else {
                old(self).oom_count as int
            },
            r is None && n == 0 ==> final(self).oom_count == old(self).oom_count,
    {
        proof {
            lemma_max_alloc(self);
        }
        if n == 0 {
            return None;
        }
        if n > self.capacity - HEADER_SIZE {
            if self.oom_count < u64::MAX {
                self.oom_count = self.oom_count + 1;
            }
            return None;
        }
        let rem = n % ALIGNMENT;
        let ru = if rem == 0 {
            n
        } else {
            n + (ALIGNMENT - rem)
        };
        let required = ru + HEADER_SIZE;
        proof {
            assert(ru as int == round_up_align(n as int));
            assert(ru as int % (ALIGNMENT as int) == 0);
            assert(ru <= self.capacity - HEADER_SIZE);
            assert(MIN_BLOCK <= required && required <= self.capacity);
        }
        let lg = log2_floor(required as u64);
        let fl = lg.0;
        let flp = lg.1;
        let flu = fl as usize;
        let optimal: u64 = if required as u64 == flp {
            fl
        } else {
            fl + 1
        };
        if (self.mask >> fl) & 1u64 == 1u64 {
            proof {
                reveal(mask_matches);
                assert(bit64(self.mask, fl));
                assert(self.bins@[fl as int]@.len() > 0);
            }
            let bl = self.bins[flu].len();
            if self.bins[flu][bl - 1].size >= required {
                proof {
                    lemma_alloc_within_max(self, fl, required, n);
                }
                let p = self.take_from_bin(fl, required);
                let ghost hmid = *self;
                if n > self.peak_request {
                    self.peak_request = n;
                }
                proof {
                    let jw = choose|jw: int|
                        0 <= jw < hmid.blocks@.len() && (#[trigger] hmid.blocks@[jw]).used
                            && hmid.base + off(hmid.blocks@, jw) + HEADER_SIZE == p && required
                            as int <= hmid.blocks@[jw].size;
                    assert(live_payload_spans(self, p, required as int));
                    let jv = choose|jv: int|
                        0 <= jv < hmid.blocks@.len() && (#[trigger] hmid.blocks@[jv]).used
                            && hmid.base + off(hmid.blocks@, jv) + HEADER_SIZE == p
                            && hmid.allocated == old(self).allocated + hmid.blocks@[jv].size;
                    assert(served_block(old(self), self, p));
                }
                return Some(p);
            }
        }
        match find_first_set_from(self.mask, optimal) {
            Some(i) => {
                proof {
                    lemma_p2_mono(optimal as int, i as int);
                    lemma_alloc_head_fits(self, i, required);
                    lemma_alloc_within_max(self, i, required, n);
                }
                let p = self.take_from_bin(i, required);
                let ghost hmid = *self;
                if n > self.peak_request {
                    self.peak_request = n;
                }
                proof {
                    let jw = choose|jw: int|
                        0 <= jw < hmid.blocks@.len() && (#[trigger] hmid.blocks@[jw]).used
                            && hmid.base + off(hmid.blocks@, jw) + HEADER_SIZE == p && required
                            as int <= hmid.blocks@[jw].size;
                    assert(live_payload_spans(self, p, required as int));
                    let jv = choose|jv: int|
                        0 <= jv < hmid.blocks@.len() && (#[trigger] hmid.blocks@[jv]).used
                            && hmid.base + off(hmid.blocks@, jv) + HEADER_SIZE == p
                            && hmid.allocated == old(self).allocated + hmid.blocks@[jv].size;
                    assert(served_block(old(self), self, p));
                }
                Some(p)
            },
            None => {
                proof {
                    lemma_alloc_beyond_max(self, n, required, fl, flp, optimal);
                }
                if self.oom_count < u64::MAX {
                    self.oom_count = self.oom_count + 1;
                }
                None
            },
        }
    }
}


/// Marking used block `jj` free and pushing its entry keeps the registry coherent.
#[verifier::rlimit(100)]
#[verifier::spinoff_prover]
pub proof fn lemma_release(
    bs0: Seq<Block>,
    bn0: Seq<Vec<FreeRef>>,
    bn2: Seq<Vec<FreeRef>>,
    m0: u64,
    m2: u64,
    b: u64,
    jj: int,
    nr: FreeRef,
)
    requires
        blocks_sized(bs0),
        entries_valid(bs0, bn0),
        frees_binned(bs0, bn0),
        bins_unique(bn0),
        mask_matches(bn0, m0),
        bn0.len() == 64,
        bn2.len() == 64,
        0 <= jj < bs0.len(),
        bs0[jj].used,
        b < 64,
        b as int == log2(bs0[jj].size as int),
        nr.off == off(bs0, jj),
        nr.size == bs0[jj].size,
        bn2[b as int]@ == bn0[b as int]@.push(nr),
        forall|i: int| 0 <= i < 64 && i != b as int ==> bn2[i] == bn0[i],
        forall|i: u64| i < 64 ==> bit64(m2, i) == (i == b || bit64(m0, i)),
    ensures
        blocks_sized(bs0.update(jj, (Block { size: bs0[jj].size, used: false }))),
        off(bs0.update(jj, (Block { size: bs0[jj].size, used: false })), bs0.len() as int) == off(
            bs0,
            bs0.len() as int,
        ),
        entries_valid(bs0.update(jj, (Block { size: bs0[jj].size, used: false })), bn2),
        frees_binned(bs0.update(jj, (Block { size: bs0[jj].size, used: false })), bn2),
        bins_unique(bn2),
        mask_matches(bn2, m2),
        used_total(bs0.update(jj, (Block { size: bs0[jj].size, used: false })), bs0.len() as int)
            == used_total(bs0, bs0.len() as int) - bs0[jj].size,
{
    reveal(entries_valid);
    reveal(frees_binned);
    reveal(bins_unique);
    reveal(mask_matches);
    let len0 = bs0.len() as int;
    let b1 = Block { size: bs0[jj].size, used: false };
    let bs2 = bs0.update(jj, b1);
    let bi = b as int;
    assert forall|k: int| 0 <= k <= len0 implies off(bs2, k) == off(bs0, k) by {
        lemma_off_update(bs0, jj, b1, k);
    }
    assert forall|i: int, k: int|
        0 <= i < bn2.len() && 0 <= k < bn2[i]@.len() implies (exists|jx: int|
        entry_matches(bs2, #[trigger] bn2[i]@[k], jx)) && log2(bn2[i]@[k].size as int) == i by {
        if i == bi && k == bn2[i]@.len() - 1 {
            assert(bn2[i]@[k] == nr);
            assert(entry_matches(bs2, nr, jj));
        } else {
            assert(bn2[i]@[k] == bn0[i]@[k]);
            let e2 = bn0[i]@[k];
            let jw2 = lemma_entry_witness(bs0, bn0, i, k);
            assert(jw2 != jj);
            assert(bs2[jw2] == bs0[jw2]);
            assert(entry_matches(bs2, e2, jw2));
        }
    }
    assert forall|j2: int|
        0 <= j2 < bs2.len() && !(#[trigger] bs2[j2]).used implies free_in_bin(bs2, bn2, j2) by {
        if j2 == jj {
            assert(bn2[bi]@[bn2[bi]@.len() - 1] == nr);
            assert(free_in_bin(bs2, bn2, j2));
        } else {
            assert(bs2[j2] == bs0[j2] && off(bs2, j2) == off(bs0, j2));
            let bb = log2(bs0[j2].size as int);
            lemma_log2_le63(bs0[j2].size as int);
            let k = choose|k: int|
                0 <= k < bn0[bb]@.len() && (#[trigger] bn0[bb]@[k]).off == off(bs0, j2)
                    && bn0[bb]@[k].size == bs0[j2].size;
            assert(bn2[bb]@[k] == bn0[bb]@[k]);
            assert(free_in_bin(bs2, bn2, j2));
        }
    }
    assert forall|i: int, k1: int, k2: int|
        0 <= i < bn2.len() && 0 <= k1 < k2 < bn2[i]@.len() implies (#[trigger] bn2[i]@[k1]).off
        != (#[trigger] bn2[i]@[k2]).off by {
        if i == bi && k2 == bn2[i]@.len() - 1 {
            assert(bn2[i]@[k1] == bn0[i]@[k1]);
            let jw2 = lemma_entry_witness(bs0, bn0, i, k1);
            assert(jw2 != jj);
            if jw2 < jj {
                lemma_off_bounds(bs0, jw2, jj);
            } else {
                lemma_off_bounds(bs0, jj, jw2);
            }
        }
    }
    lemma_used_update(bs0, jj, b1, len0);
}

/// Removing the two neighbors' entries, merging the blocks and registering
/// the merged block keeps the registry coherent.
#[verifier::rlimit(100)]
#[verifier::spinoff_prover]
pub proof fn lemma_merge(bs0: Seq<Block>, jj: int)
    requires
        blocks_sized(bs0),
        0 <= jj,
        jj + 1 < bs0.len(),
        !bs0[jj].used,
        !bs0[jj + 1].used,
        bs0[jj].size + bs0[jj + 1].size <= usize::MAX,
    ensures
        blocks_sized(
            bs0.update(
                jj,
                (Block { size: (bs0[jj].size + bs0[jj + 1].size) as usize, used: false }),
            ).remove(jj + 1),
        ),
        off(
            bs0.update(
                jj,
                (Block { size: (bs0[jj].size + bs0[jj + 1].size) as usize, used: false }),
            ).remove(jj + 1),
            bs0.len() - 1,
        ) == off(bs0, bs0.len() as int),
        used_total(
            bs0.update(
                jj,
                (Block { size: (bs0[jj].size + bs0[jj + 1].size) as usize, used: false }),
            ).remove(jj + 1),
            bs0.len() - 1,
        ) == used_total(bs0, bs0.len() as int),
        forall|k: int|
            0 <= k <= jj ==> #[trigger] off(
                bs0.update(
                    jj,
                    (Block { size: (bs0[jj].size + bs0[jj + 1].size) as usize, used: false }),
                ).remove(jj + 1),
                k,
            ) == off(bs0, k),
        forall|k: int|
            jj + 1 <= k <= bs0.len() - 1 ==> #[trigger] off(
                bs0.update(
                    jj,
                    (Block { size: (bs0[jj].size + bs0[jj + 1].size) as usize, used: false }),
                ).remove(jj + 1),
                k,
            ) == off(bs0, k + 1),
{
    let len0 = bs0.len() as int;
    let bmb = Block { size: (bs0[jj].size + bs0[jj + 1].size) as usize, used: false };
    let bs1 = bs0.update(jj, bmb);
    let bs2 = bs1.remove(jj + 1);
    assert forall|k: int| 0 <= k <= jj implies off(bs2, k) == off(bs0, k) by {
        lemma_off_update(bs0, jj, bmb, k);
        lemma_off_remove(bs1, jj + 1, k);
    }
    assert forall|k: int| jj + 1 <= k <= len0 - 1 implies off(bs2, k) == off(bs0, k + 1) by {
        lemma_off_update(bs0, jj, bmb, k + 1);
        lemma_off_remove(bs1, jj + 1, k);
    }
    assert forall|k: int| 0 <= k < bs2.len() implies (#[trigger] bs2[k]).size >= MIN_BLOCK
        && bs2[k].size as int % (ALIGNMENT as int) == 0 by {
        if k > jj {
            assert(bs2[k] == bs0[k + 1]);
        }
    }
    lemma_used_update(bs0, jj, bmb, len0);
    lemma_used_remove(bs1, jj + 1, len0 - 1);
}

impl O1Heap {
    /// Mark used block `j` free and register it in the bin of its size.
    #[verifier::rlimit(100)]
    #[verifier::spinoff_prover]
    fn release_block(&mut self, j: usize, oj: usize)
        requires
            old(self).coherent(),
            old(self).ready,
            (j as int) < old(self).blocks@.len(),
            old(self).blocks@[j as int].used,
            oj as int == off(old(self).blocks@, j as int),
        ensures
            final(self).coherent(),
            final(self).ready,
            final(self).blocks@ == old(self).blocks@.update(
                j as int,
                (Block { size: old(self).blocks@[j as int].size, used: false }),
            ),
            final(self).base == old(self).base,
            final(self).capacity == old(self).capacity,
            final(self).allocated == old(self).allocated - old(self).blocks@[j as int].size,
            final(self).peak_allocated == old(self).peak_allocated,
            final(self).peak_request == old(self).peak_request,
            final(self).oom_count == old(self).oom_count,
    {
        let ghost bs0 = old(self).blocks@;
        let ghost bn0 = old(self).bins@;
        let ghost m0 = old(self).mask;
        let ghost len0 = bs0.len() as int;
        let sz = self.blocks[j].size;
        proof {
            lemma_used_at_least(bs0, len0, j as int);
            lemma_used_le_off(bs0, j as int);
            lemma_log2_le63(sz as int);
        }
        let lg = log2_floor(sz as u64);
        let bu = lg.0 as usize;
        let nr = FreeRef { off: oj, size: sz };
        self.blocks[j] = Block { size: sz, used: false };
        self.bins[bu].push(nr);
        self.mask = self.mask | (1u64 << lg.0);
        self.allocated = self.allocated - sz;
        proof {
            let jj = j as int;
            let b = lg.0 as int;
            let b1 = Block { size: sz, used: false };
            let bs2 = self.blocks@;
            let bn2 = self.bins@;
            let m2 = self.mask;
            assert(bs2 == bs0.update(jj, b1));
            assert(bn2[b]@ == bn0[b]@.push(nr));
            assert(forall|i: int| 0 <= i < 64 && i != b ==> bn2[i] == bn0[i]);
            assert forall|i: u64| i < 64 implies bit64(m2, i) == (i == lg.0 || bit64(m0, i)) by {
                lemma_bit_or(m0, lg.0, i);
            }
            lemma_release(bs0, bn0, bn2, m0, m2, lg.0, jj, nr);
            assert(self.coherent());
        }
    }

    /// Coalesce the free block `j` with its free right physical neighbor:
    /// both leave the registry, the blocks merge, and the merged block is
    /// registered in the bin of its summed size.
    #[verifier::rlimit(100)]
    #[verifier::spinoff_prover]
    fn merge_right(&mut self, j: usize, oj: usize)
        requires
            old(self).coherent(),
            old(self).ready,
            (j as int) + 1 < old(self).blocks@.len(),
            !old(self).blocks@[j as int].used,
            !old(self).blocks@[j as int + 1].used,
            oj as int == off(old(self).blocks@, j as int),
        ensures
            final(self).coherent(),
            final(self).ready,
            final(self).blocks@ == old(self).blocks@.update(
                j as int,
                (Block {
                    size: (old(self).blocks@[j as int].size + old(self).blocks@[j as int
                        + 1].size) as usize,
                    used: false,
                }),
            ).remove(j as int + 1),
            final(self).base == old(self).base,
            final(self).capacity == old(self).capacity,
            final(self).allocated == old(self).allocated,
            final(self).peak_allocated == old(self).peak_allocated,
            final(self).peak_request == old(self).peak_request,
            final(self).oom_count == old(self).oom_count,
    {
        let ghost bs0 = old(self).blocks@;
        let ghost bn0 = old(self).bins@;
        let ghost m0 = old(self).mask;
        let ghost len0 = bs0.len() as int;
        let block_count = self.blocks.len();
        let s1 = self.blocks[j].size;
        let s2 = self.blocks[j + 1].size;
        proof {
            lemma_off_bounds(bs0, j as int, j as int + 1);
            lemma_off_bounds(bs0, j as int + 1, len0);
            lemma_off_bounds(bs0, j as int, len0);
            lemma_log2_le63(s1 as int);
            lemma_log2_le63(s2 as int);
            lemma_log2_le63(s1 as int + s2 as int);
            reveal(frees_binned);
            assert(free_in_bin(bs0, bn0, j as int));
            assert(free_in_bin(bs0, bn0, j as int + 1));
        }
        let lga = log2_floor(s1 as u64);
        let bau = lga.0 as usize;
        let ka = bin_remove(&mut self.bins[bau], oj);
        if self.bins[bau].len() == 0 {
            self.mask = self.mask & !(1u64 << lga.0);
        }
        let ghost bna = self.bins@;
        let ghost ma = self.mask;
        proof {
            reveal(mask_matches);
            let ba = lga.0 as int;
            assert(bna[ba]@ == bn0[ba]@.remove(ka as int));
            assert(forall|i: int| 0 <= i < 64 && i != ba ==> bna[i] == bn0[i]);
            assert forall|i: u64| i < 64 implies (bit64(ma, i) <==> (
            #[trigger] bna[i as int])@.len() > 0) by {
                if bna[ba]@.len() == 0 {
                    lemma_bit_and_not(m0, lga.0, i);
                }
            }
            assert(mask_matches(bna, ma));
            // the second entry is still present after the first removal
            let bb = log2(s2 as int);
            let k = choose|k: int|
                0 <= k < bn0[bb]@.len() && (#[trigger] bn0[bb]@[k]).off == off(bs0, j as int + 1)
                    && bn0[bb]@[k].size == bs0[j as int + 1].size;
            if bb == ba {
                assert(bn0[ba]@[ka as int].off == oj);
                assert(k != ka as int);
                if k < ka as int {
                    assert(bna[bb]@[k] == bn0[bb]@[k]);
                } else {
                    assert(bna[bb]@[k - 1] == bn0[bb]@[k]);
                }
            } else {
                assert(bna[bb]@[k] == bn0[bb]@[k]);
            }
        }
        let lgb = log2_floor(s2 as u64);
        let bbu = lgb.0 as usize;
        let kb = bin_remove(&mut self.bins[bbu], oj + s1);
        if self.bins[bbu].len() == 0 {
            self.mask = self.mask & !(1u64 << lgb.0);
        }
        let ghost bnb = self.bins@;
        let ghost mb = self.mask;
        proof {
            reveal(mask_matches);
            let bb = lgb.0 as int;
            assert(bnb[bb]@ == bna[bb]@.remove(kb as int));
            assert(forall|i: int| 0 <= i < 64 && i != bb ==> bnb[i] == bna[i]);
            assert forall|i: u64| i < 64 implies (bit64(mb, i) <==> (
            #[trigger] bnb[i as int])@.len() > 0) by {
                if bnb[bb]@.len() == 0 {
                    lemma_bit_and_not(ma, lgb.0, i);
                }
            }
            assert(mask_matches(bnb, mb));
        }
        let merged = s1 + s2;
        self.blocks[j] = Block { size: merged, used: false };
        self.blocks.remove(j + 1);
        let lgm = log2_floor(merged as u64);
        let bmu = lgm.0 as usize;
        let nr = FreeRef { off: oj, size: merged };
        self.bins[bmu].push(nr);
        self.mask = self.mask | (1u64 << lgm.0);
        proof {
            let jj = j as int;
            let bmb = Block { size: merged, used: false };
            let bs2 = self.blocks@;
            let bn2 = self.bins@;
            let m2 = self.mask;
            assert(bs2 == bs0.update(jj, bmb).remove(jj + 1));
            assert(bn2[lgm.0 as int]@ == bnb[lgm.0 as int]@.push(nr));
            assert(forall|i: int| 0 <= i < 64 && i != lgm.0 as int ==> bn2[i] == bnb[i]);
            assert forall|i: u64| i < 64 implies bit64(m2, i) == (i == lgm.0 || bit64(mb, i)) by {
                lemma_bit_or(mb, lgm.0, i);
            }
            lemma_merge(bs0, jj);
            lemma_merge_entries(
                bs0,
                bn0,
                bna,
                bnb,
                bn2,
                mb,
                m2,
                lga.0,
                lgb.0,
                lgm.0,
                jj,
                ka as int,
                kb as int,
                nr,
            );
            lemma_merge_frees(
                bs0,
                bn0,
                bna,
                bnb,
                bn2,
                mb,
                m2,
                lga.0,
                lgb.0,
                lgm.0,
                jj,
                ka as int,
                kb as int,
                nr,
            );
            lemma_merge_mask(
                bs0,
                bn0,
                bna,
                bnb,
                bn2,
                mb,
                m2,
                lga.0,
                lgb.0,
                lgm.0,
                jj,
                ka as int,
                kb as int,
                nr,
            );
            assert(self.coherent());
        }
    }
}


/// After freeing and coalescing, no used block sits at the freed payload's
/// offset any more.
#[verifier::rlimit(100)]
#[verifier::spinoff_prover]
pub proof fn lemma_free_not_live(
    bs0: Seq<Block>,
    bsa: Seq<Block>,
    bsb: Seq<Block>,
    bsf: Seq<Block>,
    jj: int,
    rf: bool,
    lf: bool,
)
    requires
        blocks_sized(bs0),
        off(bs0, bs0.len() as int) <= usize::MAX,
        0 <= jj < bs0.len(),
        bs0[jj].used,
        rf <==> (jj + 1 < bs0.len() && !bs0[jj + 1].used),
        lf <==> (jj > 0 && !bs0[jj - 1].used),
        bsa == bs0.update(jj, (Block { size: bs0[jj].size, used: false })),
        bsb == if rf {
            bsa.update(
                jj,
                (Block { size: (bsa[jj].size + bsa[jj + 1].size) as usize, used: false }),
            ).remove(jj + 1)
        } else {
            bsa
        },
        bsf == if lf {
            bsb.update(
                jj - 1,
                (Block { size: (bsb[jj - 1].size + bsb[jj].size) as usize, used: false }),
            ).remove(jj)
        } else {
            bsb
        },
    ensures
        forall|k: int|
            0 <= k < bsf.len() && (#[trigger] bsf[k]).used ==> off(bsf, k) != off(bs0, jj),
        forall|k: int|
            0 <= k < bsf.len() && (#[trigger] bsf[k]).used ==> exists|k0: int|
                0 <= k0 < bs0.len() && bs0[k0].used && off(bs0, k0) == off(bsf, k),
        forall|k0: int|
            0 <= k0 < bs0.len() && (#[trigger] bs0[k0]).used && k0 != jj ==> exists|k: int|
                0 <= k < bsf.len() && bsf[k].used && off(bsf, k) == off(bs0, k0),
{
    let pos = if lf {
        jj - 1
    } else {
        jj
    };
    let d: int = (if rf {
        1int
    } else {
        0int
    }) + (if lf {
        1int
    } else {
        0int
    });
    assert(blocks_sized(bsa));
    assert forall|k: int| 0 <= k <= bsa.len() implies off(bsa, k) == off(bs0, k) by {
        lemma_off_congruence(bsa, bs0, k);
    }
    if jj > 0 {
        lemma_off_aligned(bs0, jj - 1);
        lemma_off_bounds(bs0, jj - 1, jj);
    }
    lemma_off_aligned(bs0, jj);
    lemma_off_bounds(bs0, jj, bs0.len() as int);
    if jj + 1 < bs0.len() {
        lemma_off_bounds(bs0, jj + 1, bs0.len() as int);
    }
    if rf {
        lemma_merge(bsa, jj);
    }
    if lf {
        lemma_merge(bsb, jj - 1);
    }
    assert(!bsf[pos].used);
    assert forall|k: int|
        0 <= k < bsf.len() && (#[trigger] bsf[k]).used implies off(bsf, k) != off(bs0, jj)
        && (exists|k0: int| 0 <= k0 < bs0.len() && bs0[k0].used && off(bs0, k0) == off(bsf, k)) by {
        if k < pos {
            assert(bsf[k] == bs0[k] && off(bsf, k) == off(bs0, k));
            lemma_off_bounds(bs0, k, jj);
        } else {
            assert(bsf[k] == bs0[k + d] && off(bsf, k) == off(bs0, k + d));
            assert(k + d > jj);
            lemma_off_bounds(bs0, jj, k + d);
        }
    }
    assert forall|k0: int|
        0 <= k0 < bs0.len() && (#[trigger] bs0[k0]).used && k0 != jj implies exists|k: int|
        0 <= k < bsf.len() && bsf[k].used && off(bsf, k) == off(bs0, k0) by {
        if k0 < pos {
            assert(bsf[k0] == bs0[k0] && off(bsf, k0) == off(bs0, k0));
        } else {
            assert(bsf[k0 - d] == bs0[k0] && off(bsf, k0 - d) == off(bs0, k0));
        }
    }
}



/// What deallocation does to the set of live payloads: the freed one is gone,
/// every other one is untouched.
#[verifier::rlimit(100)]
#[verifier::spinoff_prover]
pub proof fn lemma_free_payloads(h0: &O1Heap, h1: &O1Heap, jj: int, p: usize)
    requires
        h1.base == h0.base,
        blocks_sized(h0.blocks@),
        0 <= jj < h0.blocks@.len(),
        h0.blocks@[jj].used,
        p == h0.base + off(h0.blocks@, jj) + HEADER_SIZE,
        forall|k: int|
            0 <= k < h1.blocks@.len() && (#[trigger] h1.blocks@[k]).used ==> off(h1.blocks@, k)
                != off(h0.blocks@, jj),
        forall|k0: int|
            0 <= k0 < h0.blocks@.len() && (#[trigger] h0.blocks@[k0]).used && k0 != jj
                ==> exists|k: int|
                0 <= k < h1.blocks@.len() && h1.blocks@[k].used && off(h1.blocks@, k) == off(
                    h0.blocks@,
                    k0,
                ),
    ensures
        !is_live_payload(h1, p),
        forall|q: usize| q != p && is_live_payload(h0, q) ==> is_live_payload(h1, q),
{
    let bs0 = h0.blocks@;
    let bsf = h1.blocks@;
    assert(!is_live_payload(h1, p)) by {
        if is_live_payload(h1, p) {
            let k = choose|k: int|
                0 <= k < bsf.len() && (#[trigger] bsf[k]).used && h1.base + off(bsf, k)
                    + HEADER_SIZE == p;
            assert(off(bsf, k) == off(bs0, jj));
        }
    }
    assert forall|q: usize| q != p && is_live_payload(h0, q) implies is_live_payload(h1, q) by {
        let k0 = choose|k0: int|
            0 <= k0 < bs0.len() && (#[trigger] bs0[k0]).used && h0.base + off(bs0, k0)
                + HEADER_SIZE == q;
        assert(k0 != jj);
        let k = choose|k: int| 0 <= k < bsf.len() && bsf[k].used && off(bsf, k) == off(bs0, k0);
        assert(bsf[k].used && h1.base + off(bsf, k) + HEADER_SIZE == q);
    }
}


/// Everything deallocation promises about the block list: the result is the
/// coalesced sequence, adjacency is restored, the freed payload is gone and
/// every other live payload is untouched.
#[verifier::rlimit(100)]
#[verifier::spinoff_prover]
pub proof fn lemma_free_outcome(
    h0: &O1Heap,
    h1: &O1Heap,
    bsa: Seq<Block>,
    bsb: Seq<Block>,
    jj: int,
    rf: bool,
    lf: bool,
    p: usize,
)
    requires
        h1.base == h0.base,
        blocks_sized(h0.blocks@),
        no_adjacent_free(h0.blocks@),
        off(h0.blocks@, h0.blocks@.len() as int) <= usize::MAX,
        0 <= jj < h0.blocks@.len(),
        h0.blocks@[jj].used,
        p == h0.base + off(h0.blocks@, jj) + HEADER_SIZE,
        rf <==> (jj + 1 < h0.blocks@.len() && !h0.blocks@[jj + 1].used),
        lf <==> (jj > 0 && !h0.blocks@[jj - 1].used),
        bsa == h0.blocks@.update(jj, (Block { size: h0.blocks@[jj].size, used: false })),
        bsb == if rf {
            bsa.update(
                jj,
                (Block { size: (bsa[jj].size + bsa[jj + 1].size) as usize, used: false }),
            ).remove(jj + 1)
        } else {
            bsa
        },
        h1.blocks@ == if lf {
            bsb.update(
                jj - 1,
                (Block { size: (bsb[jj - 1].size + bsb[jj].size) as usize, used: false }),
            ).remove(jj)
        } else {
            bsb
        },
    ensures
        no_adjacent_free(h1.blocks@),
        h1.blocks@ == coalesced_at(h0.blocks@, jj),
        !is_live_payload(h1, p),
        forall|q: usize| q != p && is_live_payload(h0, q) ==> is_live_payload(h1, q),
{
    let bs0 = h0.blocks@;
    let bsf = h1.blocks@;
    lemma_free_adjacent(bs0, bsa, bsb, bsf, jj, rf, lf);
    lemma_free_not_live(bs0, bsa, bsb, bsf, jj, rf, lf);
    lemma_free_payloads(h0, h1, jj, p);
    lemma_coalesced_shape(bs0, bsa, bsb, bsf, jj, rf, lf);
}

/// The three deallocation steps compute exactly `coalesced_at`.
#[verifier::rlimit(100)]
#[verifier::spinoff_prover]
pub proof fn lemma_coalesced_shape(
    bs0: Seq<Block>,
    bsa: Seq<Block>,
    bsb: Seq<Block>,
    bsf: Seq<Block>,
    jj: int,
    rf: bool,
    lf: bool,
)
    requires
        0 <= jj < bs0.len(),
        rf <==> (jj + 1 < bs0.len() && !bs0[jj + 1].used),
        lf <==> (jj > 0 && !bs0[jj - 1].used),
        bsa == bs0.update(jj, (Block { size: bs0[jj].size, used: false })),
        bsb == if rf {
            bsa.update(
                jj,
                (Block { size: (bsa[jj].size + bsa[jj + 1].size) as usize, used: false }),
            ).remove(jj + 1)
        } else {
            bsa
        },
        bsf == if lf {
            bsb.update(
                jj - 1,
                (Block { size: (bsb[jj - 1].size + bsb[jj].size) as usize, used: false }),
            ).remove(jj)
        } else {
            bsb
        },
    ensures
        bsf == coalesced_at(bs0, jj),
{
}

impl O1Heap {
    /// Return a payload to the arena: a no-op for the null address, otherwise
    /// the block is marked free, coalesced with whichever physical neighbors
    /// are free, and the result is registered in the bin of its final size.
    #[verifier::rlimit(100)]
    #[verifier::spinoff_prover]
    pub fn free(&mut self, p: usize)
        requires
            old(self).wf(),
            old(self).initialized(),
            p == 0 || is_live_payload(old(self), p),
        ensures
            final(self).wf(),
            final(self).initialized(),
            final(self).base == old(self).base,
            final(self).capacity == old(self).capacity,
            final(self).oom_count == old(self).oom_count,
            final(self).peak_allocated == old(self).peak_allocated,
            final(self).peak_request == old(self).peak_request,
            p == 0 ==> *final(self) == *old(self),
            p != 0 ==> final(self).allocated == old(self).allocated - old(self).blocks@[
                payload_block(old(self), p)].size,
            p != 0 ==> final(self).blocks@ == coalesced_at(
                old(self).blocks@,
                payload_block(old(self), p),
            ),
            p != 0 ==> !is_live_payload(final(self), p),
            p != 0 ==> forall|q: usize|
                q != p && is_live_payload(old(self), q) ==> is_live_payload(final(self), q),
    {
        if p == 0 {
            return ;
        }
        let ghost bs0 = old(self).blocks@;
        let ghost len0 = bs0.len() as int;
        proof {
            let jw = choose|jw: int|
                0 <= jw < bs0.len() && (#[trigger] bs0[jw]).used && old(self).base + off(bs0, jw)
                    + HEADER_SIZE == p;
            lemma_off_aligned(bs0, jw);
            lemma_off_bounds(bs0, jw, len0);
        }
        let target = p - self.base - HEADER_SIZE;
        let j = find_index(&self.blocks, target);
        proof {
            let jw = choose|jw: int|
                0 <= jw < bs0.len() && (#[trigger] bs0[jw]).used && old(self).base + off(bs0, jw)
                    + HEADER_SIZE == p;
            lemma_off_injective(bs0, j as int, jw);
            let jc = payload_block(old(self), p);
            lemma_off_injective(bs0, jc, jw);
        }
        let nb0 = self.blocks.len();
        let s0 = self.blocks[j].size;
        let right_free = j + 1 < nb0 && !self.blocks[j + 1].used;
        let left_free = j > 0 && !self.blocks[j - 1].used;
        let ghost ls = if j > 0 {
            bs0[j as int - 1].size as int
        } else {
            0
        };
        proof {
            if j > 0 {
                lemma_off_bounds(bs0, j as int - 1, j as int);
                lemma_off_bounds(bs0, j as int - 1, len0);
            }
            if j as int + 1 < len0 {
                lemma_off_bounds(bs0, j as int + 1, len0);
            }
        }
        self.release_block(j, target);
        let ghost bsa = self.blocks@;
        if right_free {
            proof {
                lemma_off_congruence(bsa, bs0, j as int);
            }
            self.merge_right(j, target);
        }
        let ghost bsb = self.blocks@;
        if left_free {
            let lsz = self.blocks[j - 1].size;
            proof {
                if right_free {
                    lemma_merge(bsa, j as int);
                }
                lemma_off_congruence(bsa, bs0, j as int - 1);
                lemma_off_aligned(bs0, j as int - 1);
                assert(self.blocks@[j as int - 1] == bs0[j as int - 1]);
                assert(off(self.blocks@, j as int - 1) == off(bs0, j as int - 1));
                assert(off(bs0, j as int) == off(bs0, j as int - 1) + ls);
            }
            self.merge_right(j - 1, target - lsz);
        }
        proof {
            lemma_free_outcome(
                old(self),
                self,
                bsa,
                bsb,
                j as int,
                right_free,
                left_free,
                p,
            );
            assert(self.wf_core());
        }
    }
}

/// Coalescing never leaves two adjacent free blocks behind: after freeing
/// block `jj` and merging whichever neighbors were free, adjacency holds.
#[verifier::rlimit(100)]
#[verifier::spinoff_prover]
pub proof fn lemma_free_adjacent(
    bs0: Seq<Block>,
    bsa: Seq<Block>,
    bsb: Seq<Block>,
    bsf: Seq<Block>,
    jj: int,
    rf: bool,
    lf: bool,
)
    requires
        no_adjacent_free(bs0),
        0 <= jj < bs0.len(),
        bs0[jj].used,
        rf <==> (jj + 1 < bs0.len() && !bs0[jj + 1].used),
        lf <==> (jj > 0 && !bs0[jj - 1].used),
        bsa == bs0.update(jj, (Block { size: bs0[jj].size, used: false })),
        bsb == if rf {
            bsa.update(
                jj,
                (Block { size: (bsa[jj].size + bsa[jj + 1].size) as usize, used: false }),
            ).remove(jj + 1)
        } else {
            bsa
        },
        bsf == if lf {
            bsb.update(
                jj - 1,
                (Block { size: (bsb[jj - 1].size + bsb[jj].size) as usize, used: false }),
            ).remove(jj)
        } else {
            bsb
        },
    ensures
        no_adjacent_free(bsf),
{
    let pos = if lf {
        jj - 1
    } else {
        jj
    };
    let d: int = (if rf {
        1int
    } else {
        0int
    }) + (if lf {
        1int
    } else {
        0int
    });
    assert(!bsf[pos].used);
    assert forall|k: int| 0 <= k < bsf.len() && k != pos implies (#[trigger] bsf[k]).used == bs0[
        if k < pos {
            k
        } else {
            k + d
        }
    ].used by {
        if k < pos {
            assert(bsf[k].used == bs0[k].used);
        } else {
            assert(bsf[k].used == bs0[k + d].used);
        }
    }
    assert forall|k: int|
        0 <= k && k + 1 < bsf.len() && !(#[trigger] bsf[k]).used implies bsf[k + 1].used by {
        if k + 1 < pos {
            assert(bsf[k].used == bs0[k].used && bsf[k + 1].used == bs0[k + 1].used);
        } else if k + 1 == pos {
            assert(bsf[k].used == bs0[k].used);
            if !bs0[k].used {
                assert(bs0[k + 1].used);
                if lf {
                    assert(!bs0[jj - 1].used);
                    assert(k + 1 == jj - 1);
                    assert(false);
                } else {
                    assert(k + 1 == jj && bs0[jj].used);
                    assert(false);
                }
            }
        } else if k == pos {
            assert(bsf[k + 1].used == bs0[k + 1 + d].used);
            if rf {
                assert(!bs0[jj + 1].used);
                assert(bs0[jj + 2].used);
                assert(k + 1 + d == jj + 2);
            } else {
                assert(k + 1 + d == jj + 1);
                assert(bs0[jj + 1].used);
            }
        } else {
            assert(bsf[k].used == bs0[k + d].used && bsf[k + 1].used == bs0[k + 1 + d].used);
        }
    }
}

/// The structural invariants the runtime self-test decides: the blocks are
/// aligned, minimal-or-larger and sum to the capacity, no two adjacent ones
/// are free, every registry entry names a real free block in the bin of its
/// size, every free block is registered, no bin lists an offset twice, and
/// the mask mirrors bin occupancy.
pub open spec fn structural_invariants(h: &O1Heap) -> bool {
    &&& h.bins@.len() == NUM_BINS
    &&& blocks_sized(h.blocks@)
    &&& no_adjacent_free(h.blocks@)
    &&& off(h.blocks@, h.blocks@.len() as int) == h.capacity
    &&& entries_valid(h.blocks@, h.bins@)
    &&& frees_binned(h.blocks@, h.bins@)
    &&& bins_unique(h.bins@)
    &&& mask_matches(h.bins@, h.mask)
}

/// Offsets never decrease along the block list, whatever the sizes are.
pub proof fn lemma_off_nondec(s: Seq<Block>, a: int, b: int)
    requires
        0 <= a <= b,
    ensures
        off(s, a) <= off(s, b),
    decreases b - a,
{
    if a < b {
        lemma_off_nondec(s, a, b - 1);
    }
}

/// Decide block sizing, adjacency and the capacity sum by one walk.
fn check_blocks(bs: &Vec<Block>, capacity: usize) -> (r: bool)
    ensures
        r == (blocks_sized(bs@) && no_adjacent_free(bs@) && off(bs@, bs@.len() as int)
            == capacity),
{
    let n = bs.len();
    let mut k: usize = 0;
    let mut o: usize = 0;
    while k < n
        invariant
            k <= n,
            n == bs@.len(),
            o == off(bs@, k as int),
            o <= capacity,
            forall|j: int|
                0 <= j < k ==> (#[trigger] bs@[j]).size >= MIN_BLOCK && bs@[j].size as int % (
                ALIGNMENT as int) == 0,
            forall|j: int| 0 <= j < k && j + 1 < n && !(#[trigger] bs@[j]).used ==> bs@[j + 1].used,
        decreases n - k,
    {
        let b = bs[k];
        if b.size < MIN_BLOCK || b.size % ALIGNMENT != 0 {
            return false;
        }
        if !b.used && k + 1 < n && !bs[k + 1].used {
            return false;
        }
        if b.size > capacity - o {
            proof {
                lemma_off_nondec(bs@, k as int + 1, n as int);
            }
            return false;
        }
        o = o + b.size;
        k = k + 1;
    }
    o == capacity
}

/// Decide the mask agreement over all bins.
fn check_mask(bins: &Vec<Vec<FreeRef>>, mask: u64) -> (r: bool)
    requires
        bins@.len() == NUM_BINS,
    ensures
        r == mask_matches(bins@, mask),
{
    let mut i: usize = 0;
    while i < NUM_BINS
        invariant
            bins@.len() == NUM_BINS,
            i <= NUM_BINS,
            forall|i2: u64|
                i2 < i ==> (bit64(mask, i2) <==> (#[trigger] bins@[i2 as int])@.len() > 0),
        decreases NUM_BINS - i,
    {
        let nonempty = bins[i].len() > 0;
        let bit = (mask >> (i as u64)) & 1u64 == 1u64;
        if nonempty != bit {
            proof {
                reveal(mask_matches);
            }
            return false;
        }
        i = i + 1;
    }
    proof {
        reveal(mask_matches);
    }
    true
}

/// Locate the block at offset `target`, or establish that none exists.
fn find_block_at(bs: &Vec<Block>, target: usize) -> (r: Option<usize>)
    requires
        blocks_sized(bs@),
        off(bs@, bs@.len() as int) <= usize::MAX,
    ensures
        match r {
            Some(j) => (j as int) < bs@.len() && off(bs@, j as int) == target,
            None => forall|jx: int| 0 <= jx < bs@.len() ==> off(bs@, jx) != target,
        },
{
    let n = bs.len();
    let mut j: usize = 0;
    let mut o: usize = 0;
    while j < n
        invariant
            blocks_sized(bs@),
            off(bs@, bs@.len() as int) <= usize::MAX,
            n == bs@.len(),
            j <= n,
            o == off(bs@, j as int),
            forall|jx: int| 0 <= jx < j ==> off(bs@, jx) != target,
        decreases n - j,
    {
        if o == target {
            return Some(j);
        }
        if o > target {
            proof {
                assert forall|jx: int| j <= jx < n implies off(bs@, jx) != target by {
                    lemma_off_bounds(bs@, j as int, jx);
                }
            }
            return None;
        }
        proof {
            lemma_off_bounds(bs@, j as int + 1, n as int);
        }
        o = o + bs[j].size;
        j = j + 1;
    }
    None
}

/// Decide whether a bin holds an entry with this offset and size.
fn bin_has_entry(bin: &Vec<FreeRef>, o: usize, sz: usize) -> (r: bool)
    ensures
        r == exists|k: int|
            0 <= k < bin@.len() && (#[trigger] bin@[k]).off == o && bin@[k].size == sz,
{
    let n = bin.len();
    let mut k: usize = 0;
    while k < n
        invariant
            k <= n,
            n == bin@.len(),
            forall|k2: int|
                0 <= k2 < k ==> !((#[trigger] bin@[k2]).off == o && bin@[k2].size == sz),
        decreases n - k,
    {
        let e = bin[k];
        if e.off == o && e.size == sz {
            return true;
        }
        k = k + 1;
    }
    false
}

/// Slot `(i, k)` of the registry is sound: its entry names a free block and
/// sits in the bin of its size.
pub open spec fn slot_ok(bs: Seq<Block>, bins: Seq<Vec<FreeRef>>, i: int, k: int) -> bool {
    (exists|jx: int| entry_matches(bs, bins[i]@[k], jx)) && log2(bins[i]@[k].size as int) == i
}

/// Decide that every registry entry names a free block in the bin of its size.
fn check_entries(bs: &Vec<Block>, bins: &Vec<Vec<FreeRef>>) -> (r: bool)
    requires
        blocks_sized(bs@),
        off(bs@, bs@.len() as int) <= usize::MAX,
        bins@.len() == NUM_BINS,
    ensures
        r == entries_valid(bs@, bins@),
{
    let mut i: usize = 0;
    while i < NUM_BINS
        invariant
            blocks_sized(bs@),
            off(bs@, bs@.len() as int) <= usize::MAX,
            bins@.len() == NUM_BINS,
            i <= NUM_BINS,
            forall|i2: int, k2: int|
                0 <= i2 < i && 0 <= k2 < bins@[i2]@.len() ==> #[trigger] slot_ok(
                    bs@,
                    bins@,
                    i2,
                    k2,
                ),
        decreases NUM_BINS - i,
    {
        let bl = bins[i].len();
        let mut k: usize = 0;
        while k < bl
            invariant
                blocks_sized(bs@),
                off(bs@, bs@.len() as int) <= usize::MAX,
                bins@.len() == NUM_BINS,
                i < NUM_BINS,
                k <= bl,
                bl == bins@[i as int]@.len(),
                forall|i2: int, k2: int|
                    0 <= i2 < i && 0 <= k2 < bins@[i2]@.len() ==> #[trigger] slot_ok(
                        bs@,
                        bins@,
                        i2,
                        k2,
                    ),
                forall|k2: int| 0 <= k2 < k ==> #[trigger] slot_ok(bs@, bins@, i as int, k2),
            decreases bl - k,
        {
            let e = bins[i][k];
            let found = find_block_at(bs, e.off);
            match found {
                None => {
                    proof {
                        reveal(entries_valid);
                    }
                    return false;
                },
                Some(j) => {
                    let blk = bs[j];
                    if blk.used || blk.size != e.size {
                        proof {
                            assert forall|jx: int| !entry_matches(bs@, e, jx) by {
                                if entry_matches(bs@, e, jx) {
                                    lemma_off_injective(bs@, jx, j as int);
                                }
                            }
                            reveal(entries_valid);
                        }
                        return false;
                    }
                    let lg = log2_floor(e.size as u64);
                    if lg.0 as usize != i {
                        proof {
                            reveal(entries_valid);
                        }
                        return false;
                    }
                    proof {
                        assert(entry_matches(bs@, e, j as int));
                        assert(slot_ok(bs@, bins@, i as int, k as int));
                    }
                },
            }
            k = k + 1;
        }
        i = i + 1;
    }
    proof {
        reveal(entries_valid);
        assert forall|i2: int, k2: int|
            0 <= i2 < bins@.len() && 0 <= k2 < bins@[i2]@.len() implies (exists|jx: int|
            entry_matches(bs@, #[trigger] bins@[i2]@[k2], jx)) && log2(bins@[i2]@[k2].size as int)
            == i2 by {
            assert(slot_ok(bs@, bins@, i2, k2));
        }
    }
    true
}

/// Decide that every free block is registered in the bin of its size.
fn check_frees(bs: &Vec<Block>, bins: &Vec<Vec<FreeRef>>) -> (r: bool)
    requires
        blocks_sized(bs@),
        off(bs@, bs@.len() as int) <= usize::MAX,
        bins@.len() == NUM_BINS,
    ensures
        r == frees_binned(bs@, bins@),
{
    let n = bs.len();
    let mut j: usize = 0;
    let mut o: usize = 0;
    while j < n
        invariant
            blocks_sized(bs@),
            off(bs@, bs@.len() as int) <= usize::MAX,
            bins@.len() == NUM_BINS,
            n == bs@.len(),
            j <= n,
            o == off(bs@, j as int),
            forall|j2: int|
                0 <= j2 < j && !(#[trigger] bs@[j2]).used ==> free_in_bin(bs@, bins@, j2),
        decreases n - j,
    {
        let b = bs[j];
        if !b.used {
            let lg = log2_floor(b.size as u64);
            proof {
                lemma_log2_le63(b.size as int);
            }
            if !bin_has_entry(&bins[lg.0 as usize], o, b.size) {
                proof {
                    reveal(frees_binned);
                }
                return false;
            }
            proof {
                assert(free_in_bin(bs@, bins@, j as int));
            }
        }
        proof {
            lemma_off_bounds(bs@, j as int + 1, n as int);
        }
        o = o + b.size;
        j = j + 1;
    }
    proof {
        reveal(frees_binned);
    }
    true
}

/// Decide that no bin lists one offset twice.
fn check_unique(bins: &Vec<Vec<FreeRef>>) -> (r: bool)
    requires
        bins@.len() == NUM_BINS,
    ensures
        r == bins_unique(bins@),
{
    let mut i: usize = 0;
    while i < NUM_BINS
        invariant
            bins@.len() == NUM_BINS,
            i <= NUM_BINS,
            forall|i2: int, k1: int, k2: int|
                0 <= i2 < i && 0 <= k1 < k2 < bins@[i2]@.len() ==> (
                #[trigger] bins@[i2]@[k1]).off != (#[trigger] bins@[i2]@[k2]).off,
        decreases NUM_BINS - i,
    {
        let bl = bins[i].len();
        let mut k1: usize = 0;
        while k1 < bl
            invariant
                bins@.len() == NUM_BINS,
                i < NUM_BINS,
                k1 <= bl,
                bl == bins@[i as int]@.len(),
                forall|i2: int, k1x: int, k2x: int|
                    0 <= i2 < i && 0 <= k1x < k2x < bins@[i2]@.len() ==> (
                    #[trigger] bins@[i2]@[k1x]).off != (#[trigger] bins@[i2]@[k2x]).off,
                forall|k1x: int, k2x: int|
                    0 <= k1x < k1 && k1x < k2x < bins@[i as int]@.len() ==> (
                    #[trigger] bins@[i as int]@[k1x]).off != (#[trigger] bins@[i as int]@[k2x]).off,
            decreases bl - k1,
        {
            let mut k2: usize = k1 + 1;
            while k2 < bl
                invariant
                    bins@.len() == NUM_BINS,
                    i < NUM_BINS,
                    k1 < k2,
                    k2 <= bl,
                    k1 < bl,
                    bl == bins@[i as int]@.len(),
                    forall|k2x: int|
                        k1 < k2x < k2 ==> (#[trigger] bins@[i as int]@[k2x]).off != bins@[i as int]@[k1 as int].off,
                decreases bl - k2,
            {
                if bins[i][k1].off == bins[i][k2].off {
                    proof {
                        reveal(bins_unique);
                    }
                    return false;
                }
                k2 = k2 + 1;
            }
            k1 = k1 + 1;
        }
        i = i + 1;
    }
    proof {
        reveal(bins_unique);
    }
    true
}

impl O1Heap {
    /// Runtime self-test: re-derive the structural invariants from the raw
    /// state and report whether they hold. It answers exactly: true when
    /// `structural_invariants` holds, false as soon as one check fails; on a
    /// well-formed instance it is therefore always true. Intended as an
    /// offline self-test, not for the allocation path: its cost grows with
    /// the number of blocks and registry entries.
    pub fn invariants_hold(&self) -> (r: bool)
        ensures
            r == structural_invariants(self),
            self.initialized() && self.wf() ==> r,
    {
        if self.bins.len() != NUM_BINS {
            return false;
        }
        if !check_blocks(&self.blocks, self.capacity) {
            return false;
        }
        if !check_mask(&self.bins, self.mask) {
            return false;
        }
        if !check_entries(&self.blocks, &self.bins) {
            return false;
        }
        if !check_frees(&self.blocks, &self.bins) {
            return false;
        }
        check_unique(&self.bins)
    }
}

/// The smallest arena `init` accepts: one minimal block.
pub fn min_arena_size() -> (r: usize)
    ensures
        r == MIN_BLOCK,
{
    MIN_BLOCK
}

/// The witness block a registry slot describes.
pub proof fn lemma_entry_witness(bs: Seq<Block>, bins: Seq<Vec<FreeRef>>, i: int, k: int) -> (jw:
    int)
    requires
        entries_valid(bs, bins),
        0 <= i < bins.len(),
        0 <= k < bins[i]@.len(),
    ensures
        entry_matches(bs, bins[i]@[k], jw),
        log2(bins[i]@[k].size as int) == i,
{
    reveal(entries_valid);
    let e = bins[i]@[k];
    choose|j: int| entry_matches(bs, e, j)
}

/// What the head entry of a non-empty bin is like: its size sits in the
/// bin's power-of-two window, is aligned, minimal-or-larger, and fits the arena.
pub proof fn lemma_head_entry(h: &O1Heap, i: u64)
    requires
        h.wf_core(),
        i < 64,
        bit64(h.mask, i),
    ensures
        h.bins@[i as int]@.len() > 0,
        p2(i as int) <= h.bins@[i as int]@[h.bins@[i as int]@.len() - 1].size,
        h.bins@[i as int]@[h.bins@[i as int]@.len() - 1].size < p2(i as int + 1),
        h.bins@[i as int]@[h.bins@[i as int]@.len() - 1].size as int % (ALIGNMENT as int) == 0,
        h.bins@[i as int]@[h.bins@[i as int]@.len() - 1].size >= MIN_BLOCK,
        h.bins@[i as int]@[h.bins@[i as int]@.len() - 1].size <= h.capacity,
{
    reveal(mask_matches);
    assert(h.bins@[i as int]@.len() > 0);
    let bs = h.blocks@;
    let bn = h.bins@;
    let k = bn[i as int]@.len() - 1;
    let e = bn[i as int]@[k];
    let j = lemma_entry_witness(bs, bn, i as int, k);
    lemma_log2_bounds(e.size as int);
    lemma_off_bounds(bs, j, bs.len() as int);
    lemma_off_aligned(bs, j);
}

/// The reported maximum request always fits the arena.
pub proof fn lemma_max_alloc(h: &O1Heap)
    requires
        h.wf_core(),
    ensures
        0 <= max_alloc_spec(h),
        max_alloc_spec(h) <= h.capacity - HEADER_SIZE,
        max_alloc_spec(h) as int % (ALIGNMENT as int) == 0,
{
    lemma_top_bit(h.mask, 63);
    let t = top_bit(h.mask, 63);
    if t >= 0 {
        lemma_head_entry(h, t as u64);
    }
}


/// Companion to `lemma_merge`: per-bin uniqueness and the mask agreement
/// after the same three registry steps.
#[verifier::rlimit(100)]
#[verifier::spinoff_prover]
pub proof fn lemma_merge_mask(
    bs0: Seq<Block>,
    bn0: Seq<Vec<FreeRef>>,
    bna: Seq<Vec<FreeRef>>,
    bnb: Seq<Vec<FreeRef>>,
    bn2: Seq<Vec<FreeRef>>,
    mb: u64,
    m2: u64,
    bau: u64,
    bbu: u64,
    bmu: u64,
    jj: int,
    ka: int,
    kb: int,
    nr: FreeRef,
)
    requires
        blocks_sized(bs0),
        entries_valid(bs0, bn0),
        frees_binned(bs0, bn0),
        bins_unique(bn0),
        bn0.len() == 64,
        bna.len() == 64,
        bnb.len() == 64,
        bn2.len() == 64,
        0 <= jj,
        jj + 1 < bs0.len(),
        !bs0[jj].used,
        !bs0[jj + 1].used,
        bs0[jj].size + bs0[jj + 1].size <= usize::MAX,
        bau < 64,
        bbu < 64,
        bmu < 64,
        bau as int == log2(bs0[jj].size as int),
        bbu as int == log2(bs0[jj + 1].size as int),
        bmu as int == log2(bs0[jj].size + bs0[jj + 1].size as int),
        0 <= ka < bn0[bau as int]@.len(),
        bn0[bau as int]@[ka].off == off(bs0, jj),
        bna[bau as int]@ == bn0[bau as int]@.remove(ka),
        forall|i: int| 0 <= i < 64 && i != bau as int ==> bna[i] == bn0[i],
        0 <= kb < bna[bbu as int]@.len(),
        bna[bbu as int]@[kb].off == off(bs0, jj + 1),
        bnb[bbu as int]@ == bna[bbu as int]@.remove(kb),
        forall|i: int| 0 <= i < 64 && i != bbu as int ==> bnb[i] == bna[i],
        mask_matches(bnb, mb),
        nr.off == off(bs0, jj),
        nr.size == bs0[jj].size + bs0[jj + 1].size,
        bn2[bmu as int]@ == bnb[bmu as int]@.push(nr),
        forall|i: int| 0 <= i < 64 && i != bmu as int ==> bn2[i] == bnb[i],
        forall|i: u64| i < 64 ==> bit64(m2, i) == (i == bmu || bit64(mb, i)),
    ensures
        bins_unique(bn2),
        mask_matches(bn2, m2),
{
    reveal(entries_valid);
    reveal(bins_unique);
    reveal(mask_matches);
    let len0 = bs0.len() as int;
    let ba = bau as int;
    let bb = bbu as int;
    let bm = bmu as int;
    assert forall|i: int, k1: int, k2: int|
        0 <= i < bn2.len() && 0 <= k1 < k2 < bn2[i]@.len() implies (#[trigger] bn2[i]@[k1]).off
        != (#[trigger] bn2[i]@[k2]).off by {
        let kb1 = if i == bb && k1 >= kb {
            k1 + 1
        } else {
            k1
        };
        let ka1 = if i == ba && kb1 >= ka {
            kb1 + 1
        } else {
            kb1
        };
        assert(bn2[i]@[k1] == bn0[i]@[ka1]);
        if i == bm && k2 == bn2[i]@.len() - 1 {
            let jw2 = lemma_entry_witness(bs0, bn0, i, ka1);
            if jw2 == jj {
                assert(i == ba && ka1 != ka);
                assert(bn0[ba]@[ka].off == off(bs0, jj));
                assert(false);
            }
            if jw2 < jj {
                lemma_off_bounds(bs0, jw2, jj);
            } else {
                lemma_off_bounds(bs0, jj, jw2);
            }
            assert(bn2[i]@[k1].off != nr.off);
        } else {
            let kb2 = if i == bb && k2 >= kb {
                k2 + 1
            } else {
                k2
            };
            let ka2 = if i == ba && kb2 >= ka {
                kb2 + 1
            } else {
                kb2
            };
            assert(bn2[i]@[k2] == bn0[i]@[ka2]);
            assert(ka1 < ka2);
        }
    }
}


/// Companion to `lemma_merge`: every free block is still registered after
/// the same three registry steps.
#[verifier::rlimit(100)]
#[verifier::spinoff_prover]
pub proof fn lemma_merge_frees(
    bs0: Seq<Block>,
    bn0: Seq<Vec<FreeRef>>,
    bna: Seq<Vec<FreeRef>>,
    bnb: Seq<Vec<FreeRef>>,
    bn2: Seq<Vec<FreeRef>>,
    mb: u64,
    m2: u64,
    bau: u64,
    bbu: u64,
    bmu: u64,
    jj: int,
    ka: int,
    kb: int,
    nr: FreeRef,
)
    requires
        blocks_sized(bs0),
        frees_binned(bs0, bn0),
        bins_unique(bn0),
        bn0.len() == 64,
        bna.len() == 64,
        bnb.len() == 64,
        bn2.len() == 64,
        0 <= jj,
        jj + 1 < bs0.len(),
        !bs0[jj].used,
        !bs0[jj + 1].used,
        bs0[jj].size + bs0[jj + 1].size <= usize::MAX,
        bau < 64,
        bbu < 64,
        bmu < 64,
        bau as int == log2(bs0[jj].size as int),
        bbu as int == log2(bs0[jj + 1].size as int),
        bmu as int == log2(bs0[jj].size + bs0[jj + 1].size as int),
        0 <= ka < bn0[bau as int]@.len(),
        bn0[bau as int]@[ka].off == off(bs0, jj),
        bna[bau as int]@ == bn0[bau as int]@.remove(ka),
        forall|i: int| 0 <= i < 64 && i != bau as int ==> bna[i] == bn0[i],
        0 <= kb < bna[bbu as int]@.len(),
        bna[bbu as int]@[kb].off == off(bs0, jj + 1),
        bnb[bbu as int]@ == bna[bbu as int]@.remove(kb),
        forall|i: int| 0 <= i < 64 && i != bbu as int ==> bnb[i] == bna[i],
        nr.off == off(bs0, jj),
        nr.size == bs0[jj].size + bs0[jj + 1].size,
        bn2[bmu as int]@ == bnb[bmu as int]@.push(nr),
        forall|i: int| 0 <= i < 64 && i != bmu as int ==> bn2[i] == bnb[i],
        forall|i: u64| i < 64 ==> bit64(m2, i) == (i == bmu || bit64(mb, i)),
    ensures
        frees_binned(
            bs0.update(
                jj,
                (Block { size: (bs0[jj].size + bs0[jj + 1].size) as usize, used: false }),
            ).remove(jj + 1),
            bn2,
        ),
{
    reveal(frees_binned);
    let len0 = bs0.len() as int;
    let ba = bau as int;
    let bb = bbu as int;
    let bm = bmu as int;
    let bmb = Block { size: (bs0[jj].size + bs0[jj + 1].size) as usize, used: false };
    let bs1 = bs0.update(jj, bmb);
    let bs2 = bs1.remove(jj + 1);
    assert forall|k: int| 0 <= k <= jj implies off(bs2, k) == off(bs0, k) by {
        lemma_off_update(bs0, jj, bmb, k);
        lemma_off_remove(bs1, jj + 1, k);
    }
    assert forall|k: int| jj + 1 <= k <= len0 - 1 implies off(bs2, k) == off(bs0, k + 1) by {
        lemma_off_update(bs0, jj, bmb, k + 1);
        lemma_off_remove(bs1, jj + 1, k);
    }
    assert forall|j2: int|
        0 <= j2 < bs2.len() && !(#[trigger] bs2[j2]).used implies free_in_bin(bs2, bn2, j2) by {
        if j2 == jj {
            assert(bn2[bm]@[bn2[bm]@.len() - 1] == nr);
            assert(bs2[j2] == bmb);
            assert(bs2[j2].size == nr.size);
            assert(log2(bs2[j2].size as int) == bm);
            assert(off(bs2, j2) == off(bs0, jj));
            assert(free_in_bin(bs2, bn2, j2));
        } else {
            let jold = if j2 < jj {
                j2
            } else {
                j2 + 1
            };
            assert(bs2[j2] == bs0[jold] && off(bs2, j2) == off(bs0, jold));
            assert(!bs0[jold].used);
            let bf = log2(bs0[jold].size as int);
            lemma_log2_le63(bs0[jold].size as int);
            let k = choose|k: int|
                0 <= k < bn0[bf]@.len() && (#[trigger] bn0[bf]@[k]).off == off(bs0, jold)
                    && bn0[bf]@[k].size == bs0[jold].size;
            let k1 = if bf == ba {
                if k > ka {
                    k - 1
                } else {
                    k
                }
            } else {
                k
            };
            if bf == ba && k == ka {
                lemma_off_injective(bs0, jold, jj);
                assert(false);
            }
            assert(bna[bf]@[k1] == bn0[bf]@[k]);
            let k2 = if bf == bb {
                if k1 > kb {
                    k1 - 1
                } else {
                    k1
                }
            } else {
                k1
            };
            if bf == bb && k1 == kb {
                assert(bna[bf]@[kb].off == off(bs0, jj + 1));
                lemma_off_injective(bs0, jold, jj + 1);
                assert(false);
            }
            assert(bnb[bf]@[k2] == bna[bf]@[k1]);
            assert(bn2[bf]@[k2] == bnb[bf]@[k2]);
            assert(free_in_bin(bs2, bn2, j2));
        }
    }
}


/// Companion to `lemma_merge`: every surviving registry entry still names a
/// free block after the same three registry steps.
#[verifier::rlimit(100)]
#[verifier::spinoff_prover]
pub proof fn lemma_merge_entries(
    bs0: Seq<Block>,
    bn0: Seq<Vec<FreeRef>>,
    bna: Seq<Vec<FreeRef>>,
    bnb: Seq<Vec<FreeRef>>,
    bn2: Seq<Vec<FreeRef>>,
    mb: u64,
    m2: u64,
    bau: u64,
    bbu: u64,
    bmu: u64,
    jj: int,
    ka: int,
    kb: int,
    nr: FreeRef,
)
    requires
        blocks_sized(bs0),
        entries_valid(bs0, bn0),
        frees_binned(bs0, bn0),
        bins_unique(bn0),
        bn0.len() == 64,
        bna.len() == 64,
        bnb.len() == 64,
        bn2.len() == 64,
        0 <= jj,
        jj + 1 < bs0.len(),
        !bs0[jj].used,
        !bs0[jj + 1].used,
        bs0[jj].size + bs0[jj + 1].size <= usize::MAX,
        bau < 64,
        bbu < 64,
        bmu < 64,
        bau as int == log2(bs0[jj].size as int),
        bbu as int == log2(bs0[jj + 1].size as int),
        bmu as int == log2(bs0[jj].size + bs0[jj + 1].size as int),
        0 <= ka < bn0[bau as int]@.len(),
        bn0[bau as int]@[ka].off == off(bs0, jj),
        bna[bau as int]@ == bn0[bau as int]@.remove(ka),
        forall|i: int| 0 <= i < 64 && i != bau as int ==> bna[i] == bn0[i],
        0 <= kb < bna[bbu as int]@.len(),
        bna[bbu as int]@[kb].off == off(bs0, jj + 1),
        bnb[bbu as int]@ == bna[bbu as int]@.remove(kb),
        forall|i: int| 0 <= i < 64 && i != bbu as int ==> bnb[i] == bna[i],
        mask_matches(bnb, mb),
        nr.off == off(bs0, jj),
        nr.size == bs0[jj].size + bs0[jj + 1].size,
        bn2[bmu as int]@ == bnb[bmu as int]@.push(nr),
        forall|i: int| 0 <= i < 64 && i != bmu as int ==> bn2[i] == bnb[i],
        forall|i: u64| i < 64 ==> bit64(m2, i) == (i == bmu || bit64(mb, i)),
    ensures
        entries_valid(
            bs0.update(
                jj,
                (Block { size: (bs0[jj].size + bs0[jj + 1].size) as usize, used: false }),
            ).remove(jj + 1),
            bn2,
        ),
{
    reveal(entries_valid);
    reveal(bins_unique);
    let len0 = bs0.len() as int;
    let ba = bau as int;
    let bb = bbu as int;
    let bm = bmu as int;
    let bmb = Block { size: (bs0[jj].size + bs0[jj + 1].size) as usize, used: false };
    let bs1 = bs0.update(jj, bmb);
    let bs2 = bs1.remove(jj + 1);
    assert forall|k: int| 0 <= k <= jj implies off(bs2, k) == off(bs0, k) by {
        lemma_off_update(bs0, jj, bmb, k);
        lemma_off_remove(bs1, jj + 1, k);
    }
    assert forall|k: int| jj + 1 <= k <= len0 - 1 implies off(bs2, k) == off(bs0, k + 1) by {
        lemma_off_update(bs0, jj, bmb, k + 1);
        lemma_off_remove(bs1, jj + 1, k);
    }
    assert forall|i: int, k: int|
        0 <= i < bn2.len() && 0 <= k < bn2[i]@.len() implies (exists|jx: int|
        entry_matches(bs2, #[trigger] bn2[i]@[k], jx)) && log2(bn2[i]@[k].size as int) == i by {
        if i == bm && k == bn2[i]@.len() - 1 {
            assert(bn2[i]@[k] == nr);
            assert(entry_matches(bs2, nr, jj));
        } else {
            let kb2 = if i == bb && k >= kb {
                k + 1
            } else {
                k
            };
            assert(bn2[i]@[k] == bna[i]@[kb2]);
            let ka2 = if i == ba && kb2 >= ka {
                kb2 + 1
            } else {
                kb2
            };
            assert(bn2[i]@[k] == bn0[i]@[ka2]);
            let e2 = bn0[i]@[ka2];
            let jw2 = lemma_entry_witness(bs0, bn0, i, ka2);
            if jw2 == jj {
                assert(e2.off == off(bs0, jj));
                assert(i == ba);
                assert(ka2 != ka);
                assert(bn0[ba]@[ka].off == e2.off);
                assert(false);
            }
            if jw2 == jj + 1 {
                assert(e2.off == off(bs0, jj + 1));
                assert(i == bb);
                let ka3 = if i == ba && kb >= ka {
                    kb + 1
                } else {
                    kb
                };
                assert(bna[bb]@[kb] == bn0[bb]@[ka3]);
                assert(ka2 != ka3);
                assert(bn0[bb]@[ka3].off == e2.off);
                assert(false);
            }
            if jw2 < jj {
                assert(bs2[jw2] == bs0[jw2]);
                assert(entry_matches(bs2, e2, jw2));
            } else {
                assert(bs2[jw2 - 1] == bs0[jw2]);
                assert(off(bs2, jw2 - 1) == off(bs0, jw2));
                assert(entry_matches(bs2, e2, jw2 - 1));
            }
        }
    }
}

/// Locate the block whose offset is `target` by walking the physical order.
fn find_index(bs: &Vec<Block>, target: usize) -> (j: usize)
    requires
        blocks_sized(bs@),
        exists|w: int| 0 <= w < bs@.len() && off(bs@, w) == target,
    ensures
        (j as int) < bs@.len(),
        off(bs@, j as int) == target,
{
    let ghost w = choose|w: int| 0 <= w < bs@.len() && off(bs@, w) == target;
    let len = bs.len();
    let mut j: usize = 0;
    let mut o: usize = 0;
    while o < target
        invariant
            blocks_sized(bs@),
            0 <= w < bs@.len(),
            len == bs@.len(),
            off(bs@, w) == target,
            j as int <= w,
            o == off(bs@, j as int),
            o <= target,
        decreases target - o,
    {
        proof {
            lemma_off_bounds(bs@, j as int, w);
            assert((j as int) < w);
            lemma_off_bounds(bs@, j as int + 1, w);
        }
        o = o + bs[j].size;
        j = j + 1;
    }
    proof {
        lemma_off_injective(bs@, j as int, w);
    }
    j
}

/// Remove the entry with offset `target` from one bin; returns its index.
fn bin_remove(bin: &mut Vec<FreeRef>, target: usize) -> (k: usize)
    requires
        exists|k: int| 0 <= k < old(bin)@.len() && (#[trigger] old(bin)@[k]).off == target,
    ensures
        (k as int) < old(bin)@.len(),
        old(bin)@[k as int].off == target,
        final(bin)@ == old(bin)@.remove(k as int),
{
    let mut i: usize = 0;
    while bin[i].off != target
        invariant
            i <= bin.len(),
            exists|k: int| i <= k < bin@.len() && (#[trigger] bin@[k]).off == target,
        decreases bin@.len() - i,
    {
        proof {
            let k = choose|k: int| i <= k < bin@.len() && (#[trigger] bin@[k]).off == target;
            assert((i as int) < k);
        }
        i = i + 1;
    }
    bin.remove(i);
    i
}

} // verus!
