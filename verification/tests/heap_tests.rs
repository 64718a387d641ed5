// Scenario tests for the first-fit heap engine.  The heap under test
// is narrow-indexed (4-byte cells) over a 256-byte region at 0x10000,
// so it manages 64 cells; the first data cell of a run at cell `c`
// lies at 0x10000 + (c + 1) * 4.

use nostd_env::mu_heap::{IndexWidth, MuHeap};

const BASE: usize = 0x10000;
const SIZE: usize = 256;

fn small_heap() -> MuHeap {
    let mut h = MuHeap::noheap(IndexWidth::Narrow);
    h.set_heap(BASE, SIZE);
    h
}

#[test]
fn round_trip_restores_placement() {
    // Allocating and immediately freeing returns the heap to its
    // previous state: the same request is placed at the same address.
    let mut h = small_heap();
    let a1 = h.allocate(100, 1);
    assert_eq!(a1, BASE + 4);
    h.dealloc(a1, 100, 1);
    let a2 = h.allocate(100, 1);
    assert_eq!(a2, BASE + 4);
}

#[test]
fn round_trip_after_neighbour() {
    let mut h = small_heap();
    let a = h.allocate(40, 1);
    let b = h.allocate(40, 1);
    assert!(a != 0 && b != 0);
    h.dealloc(b, 40, 1);
    let b2 = h.allocate(40, 1);
    assert_eq!(b2, b);
}

#[test]
fn live_allocations_are_disjoint() {
    let mut h = small_heap();
    let sizes = [20usize, 36, 8, 52];
    let mut blocks: Vec<(usize, usize)> = Vec::new();
    for &s in sizes.iter() {
        let p = h.allocate(s, 4);
        assert!(p != 0);
        blocks.push((p, s));
    }
    for i in 0..blocks.len() {
        for j in 0..blocks.len() {
            if i != j {
                let (pi, si) = blocks[i];
                let (pj, _) = blocks[j];
                assert!(pi + si <= pj || pj < pi);
            }
        }
    }
}

#[test]
fn allocations_honour_alignment() {
    // A larger region, so that even the 128-byte alignment finds an
    // aligned placement.
    let mut h = MuHeap::heap(IndexWidth::Narrow, BASE, 1024);
    let aligns = [1usize, 2, 4, 8, 16, 32, 64, 128];
    for &al in aligns.iter() {
        let p = h.allocate(12, al);
        assert!(p != 0);
        assert_eq!(p % al, 0);
    }
}

#[test]
fn freeing_everything_coalesces_fully() {
    // After every allocation is freed, one free run spans the whole
    // array again: a request for all 62 usable cells succeeds at the
    // heap's first data cell.
    let mut h = small_heap();
    let a = h.allocate(32, 1);
    let b = h.allocate(32, 1);
    let c = h.allocate(32, 1);
    assert!(a != 0 && b != 0 && c != 0);
    h.dealloc(b, 32, 1);
    h.dealloc(a, 32, 1);
    h.dealloc(c, 32, 1);
    let all = h.allocate(62 * 4, 1);
    assert_eq!(all, BASE + 4);
}

#[test]
fn first_fit_takes_earliest_in_scan_order() {
    // A small free run early in scan order and a larger one later: the
    // request fits the early run and must land there.
    let mut h = small_heap();
    let d1 = h.allocate(160, 1); // cells [0, 41), cursor 41
    let d2 = h.allocate(40, 1); // cells [41, 52), cursor 52
    assert_eq!(d1, BASE + 4);
    assert_eq!(d2, BASE + 42 * 4);
    h.dealloc(d1, 160, 1); // large hole at the front, cursor stays at 52
    // Scan order from the cursor: the terminal run (10 usable cells)
    // comes first, the 40-cell hole later.  A 5-cell request takes the
    // terminal run.
    let e = h.allocate(20, 1);
    assert_eq!(e, BASE + 53 * 4);
}

#[test]
fn first_fit_reuses_freed_block() {
    // Allocate A then B; free A; allocate C a little larger than half
    // of A: C lands exactly at A's old address once the scan wraps.
    let mut h = MuHeap::heap(IndexWidth::Narrow, BASE, 200);
    let a = h.allocate(100, 1); // cells [0, 26), cursor 26
    let b = h.allocate(50, 1); // cells [26, 40), cursor 40
    assert_eq!(a, BASE + 4);
    assert!(b != 0);
    h.dealloc(a, 100, 1);
    // 200 bytes give 50 cells; the terminal run holds 8 usable cells,
    // too few for 60 bytes (15 cells), so the scan wraps to A's hole.
    let c = h.allocate(60, 1);
    assert_eq!(c, a);
}

#[test]
fn grow_in_place_keeps_address_and_bytes() {
    let mut h = small_heap();
    let a = h.allocate(20, 1); // cells [0, 6)
    let b = h.allocate(20, 1); // cells [6, 12)
    let c = h.allocate(20, 1); // cells [12, 18)
    assert!(a != 0 && b != 0 && c != 0);
    h.dealloc(b, 20, 1); // bounded free run between a and c
    for i in 0..20 {
        h.write_byte(a + i, (i as u8) + 1);
    }
    let grown = h.grow(a, 20, 40, 1);
    assert_eq!(grown, a);
    for i in 0..20 {
        assert_eq!(h.read_byte(a + i), (i as u8) + 1);
    }
}

#[test]
fn grow_relocates_and_copies() {
    let mut h = small_heap();
    let a = h.allocate(20, 1); // cells [0, 6)
    let b = h.allocate(20, 1); // cells [6, 12), blocks in-place growth
    assert!(a != 0 && b != 0);
    for i in 0..20 {
        h.write_byte(a + i, 0x40 + (i as u8));
    }
    let grown = h.grow(a, 20, 100, 1);
    assert!(grown != 0);
    assert!(grown != a);
    for i in 0..20 {
        assert_eq!(h.read_byte(grown + i), 0x40 + (i as u8));
    }
}

#[test]
fn exhaustion_returns_failure_and_changes_nothing() {
    let mut h = small_heap();
    let a = h.allocate(40, 1);
    assert!(a != 0);
    for i in 0..40 {
        h.write_byte(a + i, (i as u8) ^ 0x5a);
    }
    let too_big = h.allocate(10_000, 1);
    assert_eq!(too_big, 0);
    for i in 0..40 {
        assert_eq!(h.read_byte(a + i), (i as u8) ^ 0x5a);
    }
    // The next ordinary request behaves as if the failure never
    // happened: it continues from the same cursor.
    let b = h.allocate(40, 1);
    assert_eq!(b, BASE + 12 * 4);
}

#[test]
fn zero_size_allocation_returns_alignment() {
    let mut h = small_heap();
    let p = h.allocate(0, 16);
    assert_eq!(p, 16);
    // The paired deallocation is a no-op: placement afterwards is as
    // on a fresh heap.
    h.dealloc(p, 0, 16);
    let a = h.allocate(100, 1);
    assert_eq!(a, BASE + 4);
}

#[test]
fn shrink_keeps_address_and_frees_tail() {
    let mut h = small_heap();
    let a = h.allocate(100, 1); // cells [0, 26)
    assert_eq!(a, BASE + 4);
    let r = h.shrink(a, 100, 20, 1); // keep 5 cells
    assert_eq!(r, a);
    // The freed tail coalesces with the terminal run: a big request
    // fits right after the shrunk block.
    let b = h.allocate(56 * 4, 1);
    assert_eq!(b, BASE + 7 * 4);
}

#[test]
fn shrink_of_zero_size_sentinel_is_noop() {
    let mut h = small_heap();
    let p = h.allocate(0, 32);
    assert_eq!(p, 32);
    let r = h.shrink(p, 0, 0, 32);
    assert_eq!(r, 32);
}

#[test]
fn grow_of_zero_size_sentinel_allocates() {
    let mut h = small_heap();
    let p = h.allocate(0, 8);
    assert_eq!(p, 8);
    let a = h.grow(p, 0, 24, 8);
    assert_eq!(a, BASE + 8);
}

#[test]
fn lazy_build_happens_on_first_allocation() {
    let mut h = MuHeap::heap(IndexWidth::Narrow, BASE, SIZE);
    let a = h.allocate(8, 1);
    assert_eq!(a, BASE + 4);
}

#[test]
fn wide_heap_allocates_too() {
    let mut h = MuHeap::heap(IndexWidth::Wide, 0x60000, 0x1000);
    let a = h.allocate(64, 8);
    assert_eq!(a, 0x60000 + 8);
    assert_eq!(a % 8, 0);
    h.dealloc(a, 64, 8);
    let b = h.allocate(64, 8);
    assert_eq!(b, a);
}

#[test]
fn alignment_skips_cells_but_keeps_them_free() {
    let mut h = small_heap();
    // With alignment 32 the first data cell cannot sit at cell 1, so
    // leading cells are lost to this allocation.
    let a = h.allocate(8, 32);
    assert!(a != 0);
    assert_eq!(a % 32, 0);
    assert_eq!(a, BASE + 32);
}

#[test]
fn list_walk_reports_exact_figures() {
    let mut h = small_heap();
    let a = h.allocate(20, 1); // 5 cells
    let b = h.allocate(20, 1); // 5 cells
    let c = h.allocate(20, 1); // 5 cells
    assert!(a != 0 && b != 0 && c != 0);
    h.dealloc(b, 20, 1);
    let f = h.debug_check_list();
    assert_eq!(f.inuse_count, 2);
    assert_eq!(f.inuse_ncells, 10);
    // The freed middle block and the terminal run.
    assert_eq!(f.free_count, 2);
    assert_eq!(f.free_ncells, 5 + (64 - 18 - 1));
    assert_eq!(f.free_largest, 64 - 18 - 1);
}
