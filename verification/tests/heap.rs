//! The object heap and its handles.

use rlox::vm::{Heap, Obj};

#[test]
fn alloc_string_returns_distinct_handles_per_call() {
    let mut h = Heap::new();
    let a = h.alloc_string("foo");
    let b = h.alloc_string("foo");
    assert_ne!(a, b);
    assert_eq!(h.as_str(a), Some("foo"));
    assert_eq!(h.as_str(b), Some("foo"));
}

#[test]
fn handle_display_uses_obj_prefix() {
    let mut h = Heap::new();
    let s = h.alloc_string("x");
    assert_eq!(s.render(), "obj#0");
    let t = h.alloc_string("y");
    assert_eq!(t.render(), "obj#1");
}

#[test]
fn empty_and_len_track_allocations() {
    let mut h = Heap::new();
    assert!(h.is_empty());
    h.alloc_string("a");
    h.alloc_string("b");
    assert_eq!(h.len(), 2);
    assert!(!h.is_empty());
}

#[test]
fn get_returns_the_allocated_object() {
    let mut h = Heap::new();
    let a = h.alloc_string("left");
    let b = h.alloc_string("right");
    assert_eq!(*h.get(a), Obj::Str("left".into()));
    assert_eq!(*h.get(b), Obj::Str("right".into()));
    assert_eq!(a.render(), "obj#0");
    assert_eq!(b.render(), "obj#1");
}

#[test]
fn handle_reads_back_after_many_later_allocations() {
    let mut h = Heap::new();
    let first = h.alloc_string("first");
    let mut later = Vec::new();
    for i in 0..50 {
        later.push(h.alloc_string(&format!("s{}", i)));
    }
    assert_eq!(h.as_str(first), Some("first"));
    assert_eq!(h.as_str(later[0]), Some("s0"));
    assert_eq!(h.as_str(later[49]), Some("s49"));
    assert_eq!(h.len(), 51);
}
