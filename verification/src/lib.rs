//! A small runtime-support library built around a first-fit heap manager.
//!
//! The centre of the crate is [`mu_heap::MuHeap`], a first-fit allocator
//! that overlays a memory region with an array of fixed-size cells and
//! keeps the used and free runs in a linked structure of management
//! cells.  Around it stand a non-reentrant mutual-exclusion wrapper
//! ([`mu_mutex::MuMutex`]), allocation adapters ([`mu_alloc::MuAlloc`]),
//! and a few helpers for real-mode addressing and video-mode selection.

pub mod mu_heap;
pub mod mu_mutex;
pub mod mu_alloc;
pub mod x86_far_ptr;
pub mod bios_data;
pub mod vbe;
pub mod text_writer;
