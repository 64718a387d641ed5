// Tests for the allocation adapters, the mutex, and the index trait.

use nostd_env::mu_alloc::MuAlloc;
use nostd_env::mu_heap::{IndexWidth, MuHeapIndex};
use nostd_env::mu_mutex::MuMutex;

const BASE: usize = 0x20000;

#[test]
fn adapter_allocate_and_deallocate() {
    let mut a = MuAlloc::heap(IndexWidth::Narrow, BASE, 256);
    let p = a.allocate(48, 8);
    assert_eq!(p, BASE + 8);
    assert_eq!(p % 8, 0);
    a.deallocate(p, 48, 8);
    let q = a.allocate(48, 8);
    assert_eq!(q, p);
}

#[test]
fn adapter_allocate_failure_is_null() {
    let mut a = MuAlloc::heap(IndexWidth::Narrow, BASE, 256);
    let p = a.allocate(100_000, 1);
    assert_eq!(p, 0);
}

#[test]
fn adapter_reallocate_dispatches() {
    let mut a = MuAlloc::heap(IndexWidth::Narrow, BASE, 512);
    let p = a.allocate(40, 4);
    let q = a.allocate(40, 4);
    let keeper = a.allocate(40, 4);
    assert!(p != 0 && q != 0 && keeper != 0);
    // Same size: nothing changes.
    let same = a.reallocate(p, 40, 40, 4);
    assert_eq!(same, p);
    // Freeing the middle block leaves a bounded free run after `p`, so
    // a moderate growth happens in place.
    a.deallocate(q, 40, 4);
    let bigger = a.reallocate(p, 40, 80, 4);
    assert_eq!(bigger, p);
    // Smaller: a shrink never relocates.
    let smaller = a.reallocate(p, 80, 16, 4);
    assert_eq!(smaller, p);
}

#[test]
fn adapter_set_heap_after_noheap() {
    let mut a = MuAlloc::noheap(IndexWidth::Wide);
    a.set_heap(0x40000, 1024);
    let p = a.allocate(16, 1);
    assert_eq!(p, 0x40000 + 8);
}

#[test]
fn adapter_result_interface() {
    let mut a = MuAlloc::heap(IndexWidth::Narrow, BASE, 256);
    let ok = a.try_allocate(24, 4);
    assert!(ok.is_ok());
    let (p, len) = ok.unwrap();
    assert_eq!(len, 24);
    assert_eq!(p % 4, 0);
    let grown = a.try_grow(p, 24, 48, 4);
    assert!(grown.is_ok());
    let (p2, len2) = grown.unwrap();
    assert_eq!(len2, 48);
    let shrunk = a.try_shrink(p2, 48, 8, 4);
    assert_eq!(shrunk, Ok((p2, 8)));
    let failed = a.try_allocate(100_000, 1);
    assert_eq!(failed, Err(nostd_env::mu_alloc::AllocError));
}

#[test]
fn mutex_lock_and_unlock_keep_the_value() {
    let mut m = MuMutex::new(7usize);
    let g = m.lock();
    m.unlock(g);
    let g2 = m.lock();
    m.unlock(g2);
}

#[test]
fn index_trait_narrow_and_wide() {
    assert_eq!(<i16 as MuHeapIndex>::zero(), 0);
    assert_eq!(<i16 as MuHeapIndex>::one(), 1);
    assert_eq!(<i16 as MuHeapIndex>::max_usize(), 0x7fff);
    assert_eq!(<i16 as MuHeapIndex>::from_usize(123), 123i16);
    assert_eq!(123i16.to_usize(), 123usize);
    assert_eq!(<i32 as MuHeapIndex>::zero(), 0);
    assert_eq!(<i32 as MuHeapIndex>::one(), 1);
    assert_eq!(<i32 as MuHeapIndex>::max_usize(), 0x7fff_ffff);
    assert_eq!(<i32 as MuHeapIndex>::from_usize(70_000), 70_000i32);
    assert_eq!(70_000i32.to_usize(), 70_000usize);
}
