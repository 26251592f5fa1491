use o1heap::{min_arena_size, InitError, O1Heap};

#[test]
fn init_rejects_small_and_misaligned() {
    let mut h = O1Heap::empty();
    assert_eq!(h.init(4096, 63), Err(InitError));
    let mut h2 = O1Heap::empty();
    assert_eq!(h2.init(0, 4096), Err(InitError));
    let mut h3 = O1Heap::empty();
    assert_eq!(h3.init(4097, 4096), Err(InitError));
    let mut h4 = O1Heap::empty();
    assert!(h4.init(4096, min_arena_size()).is_ok());
}

#[test]
fn scenario_allocate_free_reuse() {
    let mut h = O1Heap::empty();
    assert!(h.init(4096, 4096).is_ok());
    assert_eq!(h.max_allocation_size(), 4096 - 32);
    let a = h.allocate(64).unwrap();
    assert!(a != 0 && a % 32 == 0);
    let b = h.allocate(128).unwrap();
    assert!(b != 0 && b != a);
    h.free(a);
    let a2 = h.allocate(64).unwrap();
    assert_eq!(a2, a);
    h.free(b);
    h.free(a2);
    assert_eq!(h.max_allocation_size(), 4096 - 32);
    assert_eq!(h.diagnostics().allocated, 0);
}

#[test]
fn oversize_request_counts_oom_and_changes_nothing() {
    let mut h = O1Heap::empty();
    assert!(h.init(4096, 4096).is_ok());
    let a = h.allocate(100).unwrap();
    let before_max = h.max_allocation_size();
    let before = h.diagnostics();
    assert_eq!(h.allocate(before_max + 1), None);
    let after = h.diagnostics();
    assert_eq!(after.oom_count, before.oom_count + 1);
    assert_eq!(after.allocated, before.allocated);
    assert_eq!(h.max_allocation_size(), before_max);
    h.free(a);
}

#[test]
fn free_in_any_order_restores_capacity() {
    let mut h = O1Heap::empty();
    assert!(h.init(32, 8192).is_ok());
    let a = h.allocate(1).unwrap();
    let b = h.allocate(200).unwrap();
    let c = h.allocate(33).unwrap();
    h.free(b);
    h.free(a);
    h.free(c);
    assert_eq!(h.max_allocation_size(), 8192 - 32);
    assert_eq!(h.diagnostics().allocated, 0);
    assert_eq!(h.diagnostics().capacity, 8192);
}

#[test]
fn zero_request_returns_none_without_oom() {
    let mut h = O1Heap::empty();
    assert!(h.init(4096, 4096).is_ok());
    assert_eq!(h.allocate(0), None);
    assert_eq!(h.diagnostics().oom_count, 0);
}

#[test]
fn round_trip_restores_max_allocation() {
    let mut h = O1Heap::empty();
    assert!(h.init(4096, 4096).is_ok());
    let before = h.max_allocation_size();
    let a = h.allocate(100).unwrap();
    h.free(a);
    assert_eq!(h.max_allocation_size(), before);
    assert_eq!(h.diagnostics().allocated, 0);
}
