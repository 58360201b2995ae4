//! The heap.

use plum::interp::{Heap, Value};

#[test]
fn alloc_then_read() {
    let mut heap = Heap::new();
    let addr = heap.alloc_ctor("Point".to_string(), vec![Value::Int(1), Value::Int(2)]);
    let (tag, fields) = heap.read(addr).unwrap();
    assert_eq!(tag, "Point");
    assert_eq!(fields, &[Value::Int(1), Value::Int(2)]);
}

#[test]
fn alloc_str_then_read_str() {
    let mut heap = Heap::new();
    let addr = heap.alloc_str("hello".to_string());
    assert_eq!(heap.read_str(addr).unwrap(), "hello");
}

#[test]
fn reading_a_string_cell_as_a_ctor_is_a_detected_error() {
    let mut heap = Heap::new();
    let addr = heap.alloc_str("hello".to_string());
    let err = heap.read(addr).expect_err("expected reading a string cell as a Ctor to fail").message();
    assert!(err.contains("string"), "error should mention the mismatch, got: {err}");
}

#[test]
fn reading_a_ctor_cell_as_a_string_is_a_detected_error() {
    let mut heap = Heap::new();
    let addr = heap.alloc_ctor("Point".to_string(), vec![]);
    let err = heap.read_str(addr).expect_err("expected reading a Ctor cell as a string to fail").message();
    assert!(err.contains("constructor"), "error should mention the mismatch, got: {err}");
}

#[test]
fn fresh_alloc_starts_at_refcount_one() {
    let mut heap = Heap::new();
    let addr = heap.alloc_ctor("Point".to_string(), vec![]);
    assert_eq!(heap.refcount(addr).unwrap(), 1);
}

#[test]
fn fresh_alloc_str_starts_at_refcount_one() {
    let mut heap = Heap::new();
    let addr = heap.alloc_str("hi".to_string());
    assert_eq!(heap.refcount(addr).unwrap(), 1);
}

#[test]
fn inc_increases_refcount() {
    let mut heap = Heap::new();
    let addr = heap.alloc_ctor("Point".to_string(), vec![]);
    heap.inc(addr).unwrap();
    assert_eq!(heap.refcount(addr).unwrap(), 2);
}

#[test]
fn dec_decreases_refcount_without_freeing_while_above_zero() {
    let mut heap = Heap::new();
    let addr = heap.alloc_ctor("Point".to_string(), vec![]);
    heap.inc(addr).unwrap();
    heap.dec(addr).unwrap();
    assert_eq!(heap.refcount(addr).unwrap(), 1);
    assert!(heap.read(addr).is_ok());
}

#[test]
fn dec_to_zero_frees_the_cell() {
    let mut heap = Heap::new();
    let addr = heap.alloc_ctor("Point".to_string(), vec![]);
    heap.dec(addr).unwrap();
    let err = heap.read(addr).expect_err("expected reading a freed cell to fail").message();
    assert!(err.contains("free"), "error should mention freeing, got: {err}");
}

#[test]
fn double_free_is_a_detected_error_not_corruption() {
    let mut heap = Heap::new();
    let addr = heap.alloc_ctor("Point".to_string(), vec![]);
    heap.dec(addr).unwrap(); // refcount 1 -> 0, freed
    let err = heap.dec(addr).expect_err("expected decrementing an already-freed cell to fail").message();
    assert!(err.contains("free"), "error should mention double free, got: {err}");
}

#[test]
fn inc_on_freed_cell_is_a_detected_error() {
    let mut heap = Heap::new();
    let addr = heap.alloc_ctor("Point".to_string(), vec![]);
    heap.dec(addr).unwrap();
    assert!(heap.inc(addr).is_err());
}

#[test]
fn invalid_address_is_a_detected_error() {
    let heap = Heap::new();
    assert!(heap.read(999).is_err());
}

#[test]
fn reuse_when_uniquely_owned_recycles_the_same_address() {
    let mut heap = Heap::new();
    let addr = heap.alloc_ctor("Point".to_string(), vec![Value::Int(1), Value::Int(2)]);
    let allocs_before = heap.alloc_count();
    let result_addr = heap
        .dec_and_maybe_reuse(addr, "Point".to_string(), vec![Value::Int(2), Value::Int(1)])
        .unwrap();
    assert_eq!(result_addr, addr, "should reuse the exact same address");
    assert_eq!(heap.alloc_count(), allocs_before, "reuse must not count as a fresh allocation");
    let (tag, fields) = heap.read(result_addr).unwrap();
    assert_eq!(tag, "Point");
    assert_eq!(fields, &[Value::Int(2), Value::Int(1)]);
}

#[test]
fn reuse_when_shared_allocates_fresh_and_preserves_the_original() {
    let mut heap = Heap::new();
    let addr = heap.alloc_ctor("Point".to_string(), vec![Value::Int(1), Value::Int(2)]);
    heap.inc(addr).unwrap(); // now shared: refcount 2
    let allocs_before = heap.alloc_count();

    let result_addr = heap
        .dec_and_maybe_reuse(addr, "Point".to_string(), vec![Value::Int(9), Value::Int(9)])
        .unwrap();

    assert_ne!(result_addr, addr, "must not reuse memory that's still shared");
    assert_eq!(heap.alloc_count(), allocs_before + 1, "the shared path must allocate fresh");

    let (orig_tag, orig_fields) = heap.read(addr).unwrap();
    assert_eq!(orig_tag, "Point");
    assert_eq!(orig_fields, &[Value::Int(1), Value::Int(2)]);
    assert_eq!(heap.refcount(addr).unwrap(), 1);
}

#[test]
fn reuse_str_when_uniquely_owned_recycles_the_same_address() {
    let mut heap = Heap::new();
    let addr = heap.alloc_str("hello".to_string());
    let allocs_before = heap.alloc_count();
    let result_addr = heap.dec_and_maybe_reuse_str(addr, "hello world".to_string()).unwrap();
    assert_eq!(result_addr, addr, "should reuse the exact same address");
    assert_eq!(heap.alloc_count(), allocs_before, "reuse must not count as a fresh allocation");
    assert_eq!(heap.read_str(result_addr).unwrap(), "hello world");
}

#[test]
fn reuse_str_when_shared_allocates_fresh_and_preserves_the_original() {
    let mut heap = Heap::new();
    let addr = heap.alloc_str("hello".to_string());
    heap.inc(addr).unwrap(); // now shared: refcount 2
    let allocs_before = heap.alloc_count();

    let result_addr = heap.dec_and_maybe_reuse_str(addr, "hello world".to_string()).unwrap();

    assert_ne!(result_addr, addr, "must not reuse memory that's still shared");
    assert_eq!(heap.alloc_count(), allocs_before + 1, "the shared path must allocate fresh");
    assert_eq!(heap.read_str(addr).unwrap(), "hello");
    assert_eq!(heap.refcount(addr).unwrap(), 1);
    assert_eq!(heap.read_str(result_addr).unwrap(), "hello world");
}
