use o1heap::{min_arena_size, Block, FreeRef, O1Heap, ALIGNMENT, HEADER_SIZE, NUM_BINS};

// An aligned, non-null number standing for the arena's base address. The
// library computes over addresses as plain values; only an embedding program
// backs them with real memory.
const BASE: usize = 0x1000_0000;

fn arena(size: usize) -> O1Heap {
    let mut h = O1Heap::empty();
    h.init(BASE, size).expect("arena init");
    h
}

#[test]
fn min_arena_size_is_one_minimal_block() {
    assert_eq!(min_arena_size(), 2 * ALIGNMENT);
}

#[test]
fn init_rejects_null_base() {
    let mut h = O1Heap::empty();
    assert!(h.init(0, 4096).is_err());
}

#[test]
fn init_rejects_misaligned_base() {
    let mut h = O1Heap::empty();
    assert!(h.init(BASE + 1, 4096).is_err());
    let mut h2 = O1Heap::empty();
    assert!(h2.init(BASE + ALIGNMENT / 2, 4096).is_err());
}

#[test]
fn init_rejects_arena_overrunning_the_address_space() {
    let top = usize::MAX / ALIGNMENT * ALIGNMENT;
    let mut h = O1Heap::empty();
    assert!(h.init(top, 4096).is_err());
}

#[test]
fn init_rejects_small_arena_and_accepts_exact_minimum() {
    let mut h = O1Heap::empty();
    assert!(h.init(BASE, min_arena_size() - 1).is_err());
    let mut h2 = O1Heap::empty();
    assert!(h2.init(BASE, min_arena_size()).is_ok());
    assert!(h2.invariants_hold());
    assert_eq!(h2.max_allocation_size(), min_arena_size() - HEADER_SIZE);
}

#[test]
fn fresh_arena_diagnostics_are_zeroed() {
    let h = arena(4096);
    let d = h.diagnostics();
    assert_eq!(d.capacity, 4096);
    assert_eq!(d.allocated, 0);
    assert_eq!(d.peak_allocated, 0);
    assert_eq!(d.peak_request, 0);
    assert_eq!(d.oom_count, 0);
    assert_eq!(h.max_allocation_size(), 4096 - HEADER_SIZE);
    assert!(h.invariants_hold());
}

#[test]
fn scenario_two_allocations_free_and_reuse() {
    let mut h = arena(4096);
    let a = h.allocate(64).expect("first allocation");
    assert!(a != 0);
    assert_eq!(a % ALIGNMENT, 0);
    let b = h.allocate(128).expect("second allocation");
    assert!(b != 0);
    assert_ne!(a, b);
    h.free(a);
    let a2 = h.allocate(64).expect("reallocation");
    assert_eq!(a2, a);
    h.free(b);
    assert!(h.invariants_hold());
    // one 64-byte allocation is still outstanding here, so the largest
    // satisfiable request is what the remaining free run can hold
    assert_eq!(h.max_allocation_size(), 4096 - 96 - HEADER_SIZE);
    h.free(a2);
    assert!(h.invariants_hold());
    assert_eq!(h.max_allocation_size(), 4096 - HEADER_SIZE);
    assert_eq!(h.diagnostics().allocated, 0);
}

#[test]
fn requests_within_max_succeed_aligned_and_distinct() {
    let mut h = arena(4096);
    let mut live: Vec<usize> = Vec::new();
    for n in [1usize, 31, 32, 33, 64, 100, 256] {
        if n <= h.max_allocation_size() {
            let p = h.allocate(n).expect("request within the reported maximum");
            assert!(p != 0);
            assert_eq!(p % ALIGNMENT, 0);
            assert!(!live.contains(&p));
            live.push(p);
        }
    }
    for p in live {
        h.free(p);
    }
    assert!(h.invariants_hold());
    assert_eq!(h.max_allocation_size(), 4096 - HEADER_SIZE);
}

#[test]
fn allocate_zero_is_refused_without_counting_oom() {
    let mut h = arena(4096);
    assert!(h.allocate(0).is_none());
    assert_eq!(h.diagnostics().oom_count, 0);
    assert_eq!(h.max_allocation_size(), 4096 - HEADER_SIZE);
}

#[test]
fn oversized_request_fails_counts_oom_and_changes_nothing() {
    let mut h = arena(4096);
    let a = h.allocate(100).expect("small allocation");
    let before = h.diagnostics();
    let max = h.max_allocation_size();
    assert!(h.allocate(max + 1).is_none());
    let after = h.diagnostics();
    assert_eq!(after.oom_count, before.oom_count + 1);
    assert_eq!(after.allocated, before.allocated);
    assert_eq!(after.peak_allocated, before.peak_allocated);
    assert_eq!(h.max_allocation_size(), max);
    assert!(h.invariants_hold());
    // the reported maximum itself is still satisfiable
    let big = h.allocate(max).expect("request at the reported maximum");
    assert!(big != 0);
    h.free(big);
    h.free(a);
    assert!(h.invariants_hold());
}

#[test]
fn allocate_free_round_trip_restores_observable_state() {
    let mut h = arena(8192);
    let keep = h.allocate(256).expect("long-lived allocation");
    let max0 = h.max_allocation_size();
    let alloc0 = h.diagnostics().allocated;
    let p = h.allocate(100).expect("transient allocation");
    h.free(p);
    assert_eq!(h.max_allocation_size(), max0);
    assert_eq!(h.diagnostics().allocated, alloc0);
    assert!(h.invariants_hold());
    h.free(keep);
}

#[test]
fn freeing_everything_in_any_order_restores_full_capacity() {
    let orders: [[usize; 3]; 3] = [[0, 1, 2], [2, 1, 0], [1, 0, 2]];
    for order in orders {
        let mut h = arena(4096);
        let ps = [
            h.allocate(40).expect("a"),
            h.allocate(200).expect("b"),
            h.allocate(33).expect("c"),
        ];
        for i in order {
            h.free(ps[i]);
        }
        assert_eq!(h.diagnostics().allocated, 0);
        assert!(h.invariants_hold());
        assert_eq!(h.max_allocation_size(), 4096 - HEADER_SIZE);
    }
}

#[test]
fn mixed_interleaving_keeps_a_large_request_satisfiable() {
    let mut h = arena(8192);
    let a = h.allocate(64).expect("a");
    let b = h.allocate(300).expect("b");
    let c = h.allocate(64).expect("c");
    h.free(b);
    let d = h.allocate(128).expect("d");
    h.free(a);
    let e = h.allocate(500).expect("e");
    h.free(c);
    h.free(d);
    h.free(e);
    // everything is free again: the reported maximum is back to the full
    // usable capacity, not degraded by the interleaving
    assert_eq!(h.max_allocation_size(), 8192 - HEADER_SIZE);
    assert!(h.invariants_hold());
}

#[test]
fn peak_counters_track_demand() {
    let mut h = arena(4096);
    let a = h.allocate(100).expect("a");
    let b = h.allocate(700).expect("b");
    h.free(a);
    h.free(b);
    let d = h.diagnostics();
    assert_eq!(d.allocated, 0);
    assert_eq!(d.peak_request, 700);
    // 100 rounds up to 128 plus a header, 700 to 704 plus a header
    assert_eq!(d.peak_allocated, 160 + 736);
}

#[test]
fn exhaustion_by_many_small_blocks() {
    let mut h = arena(2048);
    let mut live: Vec<usize> = Vec::new();
    loop {
        match h.allocate(32) {
            Some(p) => live.push(p),
            None => break,
        }
    }
    assert_eq!(live.len(), 2048 / 64);
    assert_eq!(h.max_allocation_size(), 0);
    assert!(h.diagnostics().oom_count >= 1);
    assert!(h.invariants_hold());
    for p in live {
        h.free(p);
    }
    assert_eq!(h.max_allocation_size(), 2048 - HEADER_SIZE);
    assert!(h.invariants_hold());
}

#[test]
fn self_test_detects_corrupted_states() {
    // a free block that no bin lists
    let mut bins: Vec<Vec<FreeRef>> = Vec::new();
    for _ in 0..NUM_BINS {
        bins.push(Vec::new());
    }
    let h = O1Heap {
        ready: true,
        base: BASE,
        capacity: 96,
        blocks: vec![Block { size: 96, used: false }],
        bins,
        mask: 0,
        allocated: 0,
        peak_allocated: 0,
        peak_request: 0,
        oom_count: 0,
    };
    assert!(!h.invariants_hold());

    // two adjacent free blocks, never coalesced
    let mut bins2: Vec<Vec<FreeRef>> = Vec::new();
    for i in 0..NUM_BINS {
        let mut b: Vec<FreeRef> = Vec::new();
        if i == 6 {
            b.push(FreeRef { off: 0, size: 64 });
            b.push(FreeRef { off: 64, size: 64 });
        }
        bins2.push(b);
    }
    let h2 = O1Heap {
        ready: true,
        base: BASE,
        capacity: 128,
        blocks: vec![Block { size: 64, used: false }, Block { size: 64, used: false }],
        bins: bins2,
        mask: 1u64 << 6,
        allocated: 0,
        peak_allocated: 0,
        peak_request: 0,
        oom_count: 0,
    };
    assert!(!h2.invariants_hold());

    // a mask bit with an empty bin behind it
    let mut bins3: Vec<Vec<FreeRef>> = Vec::new();
    for i in 0..NUM_BINS {
        let mut b: Vec<FreeRef> = Vec::new();
        if i == 6 {
            b.push(FreeRef { off: 0, size: 64 });
        }
        bins3.push(b);
    }
    let h3 = O1Heap {
        ready: true,
        base: BASE,
        capacity: 128,
        blocks: vec![Block { size: 64, used: false }, Block { size: 64, used: true }],
        bins: bins3,
        mask: (1u64 << 6) | (1u64 << 7),
        allocated: 64,
        peak_allocated: 64,
        peak_request: 0,
        oom_count: 0,
    };
    assert!(!h3.invariants_hold());
}
