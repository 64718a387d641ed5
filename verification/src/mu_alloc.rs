//! Allocation adapters over the lock-guarded heap.
//!
//! `MuAlloc` owns one [`MuHeap`] behind a [`MuMutex`] and offers the
//! two conventional call surfaces over it: a pointer-based one, where
//! success is a non-null address and failure is zero, and a
//! result-based one, where success carries the address and the byte
//! length and failure is a distinct error value.  Every call locks the
//! mutex, delegates to the heap engine, and releases the lock.

use vstd::prelude::*;

use crate::mu_heap::{IndexWidth, MuHeap};
use crate::mu_mutex::MuMutex;

verus! {

/// The failure value of the result-based allocation interface.
#[derive(Clone, Copy, PartialEq, Eq, Structural, Debug)]
pub struct AllocError;

/// A mutex-guarded allocator backed by one [`MuHeap`].
pub struct MuAlloc {
    heap: MuMutex<MuHeap>,
}

impl MuAlloc {
    /// The heap the allocator guards.
    pub closed spec fn spec_heap(self) -> MuHeap {
        self.heap.spec_value()
    }

    /// The allocator's invariant: the lock is free between calls and
    /// the heap is well-formed.
    pub closed spec fn wf(self) -> bool {
        &&& !self.heap.spec_locked()
        &&& self.spec_heap().wf()
    }


    /// Initializes an allocator with the base and the size in bytes of
    /// its heap area.  The cell array is laid out on first use.
    pub fn heap(width: IndexWidth, given_base: usize, given_size: usize) -> (r: Self)
        requires
            MuHeap::region_ok(width, given_base, given_size),
        ensures
            r.wf(),
            !r.spec_heap().is_built(),
            r.spec_heap().has_region(),
            r.spec_heap().spec_width() == width,
    {
        Self { heap: MuMutex::new(MuHeap::heap(width, given_base, given_size)) }
    }

    /// Initializes an allocator with no heap area.  The area is
    /// supplied later through [`MuAlloc::set_heap`].
    pub fn noheap(width: IndexWidth) -> (r: Self)
        ensures
            r.wf(),
            !r.spec_heap().is_built(),
            !r.spec_heap().has_region(),
            r.spec_heap().spec_width() == width,
    {
        Self { heap: MuMutex::new(MuHeap::noheap(width)) }
    }

    /// Supplies the base and the size in bytes of the heap area to an
    /// allocator initialized with no heap.
    pub fn set_heap(&mut self, given_base: usize, given_size: usize)
        requires
            old(self).wf(),
            !old(self).spec_heap().is_built(),
            !old(self).spec_heap().has_region(),
            MuHeap::region_ok(old(self).spec_heap().spec_width(), given_base, given_size),
        ensures
            final(self).wf(),
            final(self).spec_heap().fresh_view(
                old(self).spec_heap().spec_width(),
                given_base as int,
                given_size as int,
            ),
    {
        let g = self.heap.lock();
        proof {
            self.heap.lemma_view();
        }
        self.heap.value.set_heap(given_base, given_size);
        proof {
            self.heap.lemma_view();
        }
        self.heap.unlock(g);
    }

    /// Attempts to allocate a block: returns its address, or zero when
    /// no free run fits.
    pub fn allocate(&mut self, size: usize, align: usize) -> (r: usize)
        requires
            old(self).wf(),
            old(self).spec_heap().has_region(),
            MuHeap::valid_align(align),
        ensures
            final(self).wf(),
            final(self).spec_heap().is_built(),
            MuHeap::alloc_call_post(
                old(self).spec_heap(),
                final(self).spec_heap(),
                r,
                size,
                align,
            ),
    {
        let g = self.heap.lock();
        proof {
            self.heap.lemma_view();
        }
        let r = self.heap.value.allocate(size, align);
        proof {
            self.heap.lemma_view();
        }
        self.heap.unlock(g);
        r
    }

    /// Deallocates the block at `ptr`, allocated for `size` bytes with
    /// alignment `align`.
    pub fn deallocate(&mut self, ptr: usize, size: usize, align: usize)
        requires
            old(self).wf(),
            old(self).spec_heap().is_built(),
            MuHeap::valid_align(align),
            size == 0 ==> ptr == align,
            size > 0 ==> old(self).spec_heap().is_live(ptr, size) && (ptr as int) % (
            align as int) == 0,
        ensures
            final(self).wf(),
            size == 0 ==> final(self).spec_heap() == old(self).spec_heap(),
            size > 0 ==> MuHeap::dealloc_core_post(
                old(self).spec_heap(),
                final(self).spec_heap(),
                ptr,
                size,
            ),
    {
        let g = self.heap.lock();
        proof {
            self.heap.lemma_view();
        }
        self.heap.value.dealloc(ptr, size, align);
        proof {
            self.heap.lemma_view();
        }
        self.heap.unlock(g);
    }

    /// Changes the size of the block at `ptr`, growing or shrinking it
    /// as the new size demands.  Returns the block's address, or zero
    /// when growth needed a new block and none could be placed.
    pub fn reallocate(&mut self, ptr: usize, old_size: usize, new_size: usize, align: usize) -> (r:
        usize)
        requires
            old(self).wf(),
            old(self).spec_heap().is_built(),
            MuHeap::valid_align(align),
            old_size == 0 ==> ptr == align,
            old_size > 0 ==> old(self).spec_heap().is_live(ptr, old_size) && (ptr as int) % (
            align as int) == 0,
            new_size < old_size ==> new_size >= 1,
            new_size > old_size ==> new_size as int <= old(self).spec_heap().spec_max_cells()
                * old(self).spec_heap().spec_cell_size(),
            old_size == 0 ==> new_size > 0,
        ensures
            final(self).wf(),
            new_size < old_size ==> MuHeap::shrink_core_post(
                old(self).spec_heap(),
                final(self).spec_heap(),
                r,
                ptr,
                old_size,
                new_size,
            ),
            new_size > old_size && old_size == 0 ==> MuHeap::alloc_core_post(
                old(self).spec_heap(),
                final(self).spec_heap(),
                r,
                new_size,
                align,
            ),
            new_size > old_size && old_size > 0 ==> MuHeap::grow_core_post(
                old(self).spec_heap(),
                final(self).spec_heap(),
                r,
                ptr,
                old_size,
                new_size,
                align,
            ),
            new_size == old_size ==> r == ptr && final(self).spec_heap() == old(
                self,
            ).spec_heap(),
    {
        if new_size < old_size {
            let g = self.heap.lock();
            proof {
                self.heap.lemma_view();
            }
            let r = self.heap.value.shrink(ptr, old_size, new_size, align);
            proof {
                self.heap.lemma_view();
            }
            self.heap.unlock(g);
            r
        } else if new_size > old_size {
            let g = self.heap.lock();
            proof {
                self.heap.lemma_view();
            }
            let r = self.heap.value.grow(ptr, old_size, new_size, align);
            proof {
                self.heap.lemma_view();
            }
            self.heap.unlock(g);
            r
        } else {
            ptr
        }
    }

    /// Attempts to allocate a block, result-style: success carries the
    /// address and the allocated byte length, failure is an error
    /// value.
    pub fn try_allocate(&mut self, size: usize, align: usize) -> (r: Result<
        (usize, usize),
        AllocError,
    >)
        requires
            old(self).wf(),
            old(self).spec_heap().has_region(),
            MuHeap::valid_align(align),
        ensures
            final(self).wf(),
            r matches Ok((p, len)) ==> p != 0 && len == size && MuHeap::alloc_call_post(
                old(self).spec_heap(),
                final(self).spec_heap(),
                p,
                size,
                align,
            ),
            r is Err ==> MuHeap::alloc_call_post(
                old(self).spec_heap(),
                final(self).spec_heap(),
                0,
                size,
                align,
            ),
    {
        let p = self.allocate(size, align);
        if p != 0 {
            Ok((p, size))
        } else {
            proof {
                if size == 0 {
                    assert(align != 0);
                }
            }
            Err(AllocError)
        }
    }

    /// Grows the block at `ptr`, result-style.
    pub fn try_grow(&mut self, ptr: usize, old_size: usize, new_size: usize, align: usize) -> (r:
        Result<(usize, usize), AllocError>)
        requires
            old(self).wf(),
            old(self).spec_heap().is_built(),
            MuHeap::valid_align(align),
            old_size <= new_size,
            new_size as int <= old(self).spec_heap().spec_max_cells() * old(
                self,
            ).spec_heap().spec_cell_size(),
            old_size == 0 ==> ptr == align && new_size >= 1,
            old_size > 0 ==> old(self).spec_heap().is_live(ptr, old_size) && (ptr as int) % (
            align as int) == 0,
        ensures
            final(self).wf(),
            r matches Ok((p, len)) ==> p != 0 && len == new_size,
            old_size == 0 ==> MuHeap::alloc_core_post(
                old(self).spec_heap(),
                final(self).spec_heap(),
                (match r { Ok((p, _)) => p, Err(_) => 0usize }),
                new_size,
                align,
            ),
            old_size > 0 ==> MuHeap::grow_core_post(
                old(self).spec_heap(),
                final(self).spec_heap(),
                (match r { Ok((p, _)) => p, Err(_) => 0usize }),
                ptr,
                old_size,
                new_size,
                align,
            ),
    {
        let g = self.heap.lock();
        proof {
            self.heap.lemma_view();
        }
        let p = self.heap.value.grow(ptr, old_size, new_size, align);
        proof {
            self.heap.lemma_view();
        }
        self.heap.unlock(g);
        if p != 0 {
            Ok((p, new_size))
        } else {
            Err(AllocError)
        }
    }

    /// Shrinks the block at `ptr`, result-style.  A shrink never
    /// relocates and never fails.
    pub fn try_shrink(&mut self, ptr: usize, old_size: usize, new_size: usize, align: usize) -> (r:
        Result<(usize, usize), AllocError>)
        requires
            old(self).wf(),
            old(self).spec_heap().is_built(),
            MuHeap::valid_align(align),
            new_size <= old_size,
            old_size == 0 ==> ptr == align,
            old_size > 0 ==> {
                &&& old(self).spec_heap().is_live(ptr, old_size)
                &&& (ptr as int) % (align as int) == 0
                &&& new_size >= 1
            },
        ensures
            final(self).wf(),
            r matches Ok((p, len)) ==> p == ptr && len == new_size,
            r is Ok,
            old_size > 0 ==> MuHeap::shrink_core_post(
                old(self).spec_heap(),
                final(self).spec_heap(),
                ptr,
                ptr,
                old_size,
                new_size,
            ),
            old_size == 0 ==> final(self).spec_heap() == old(self).spec_heap(),
    {
        let g = self.heap.lock();
        proof {
            self.heap.lemma_view();
        }
        let p = self.heap.value.shrink(ptr, old_size, new_size, align);
        proof {
            self.heap.lemma_view();
        }
        self.heap.unlock(g);
        Ok((p, new_size))
    }
}

} // verus!
