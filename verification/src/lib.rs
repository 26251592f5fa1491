//! A deterministic arena allocator with a verified core.
//!
//! One caller-supplied, fixed-size memory region ("arena") is carved into
//! blocks and served through `allocate` / `free`. Free blocks are kept in a
//! segregated registry: one bin per power-of-two size class, plus a bitmask
//! recording which bins are non-empty, so *finding a fitting size class* is a
//! fixed number of bit operations. Deallocation coalesces a block with its
//! physical neighbors, so two adjacent free blocks never coexist.
//!
//! The allocator state is kept outside the managed region: blocks are plain
//! records addressed by byte offset within the arena, held in physical order
//! in growable arrays, and the addresses handed out are arena addresses.
//! Turning those addresses into real memory is the embedding program's
//! concern. This layout favors full verification over latency: locating the
//! block behind an address walks the block list, registry removal scans one
//! bin, and the bookkeeping arrays themselves allocate from the host heap —
//! so operations grow with the number of blocks, and the crate makes no
//! constant-time promise.

pub mod heap;
pub mod laws;
pub mod math;

pub use heap::min_arena_size;
pub use heap::Block;
pub use heap::Diagnostics;
pub use heap::FreeRef;
pub use heap::InitError;
pub use heap::O1Heap;
pub use heap::ALIGNMENT;
pub use heap::HEADER_SIZE;
pub use heap::MIN_BLOCK;
pub use heap::NUM_BINS;
