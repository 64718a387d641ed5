//! A first-fit heap manager.
//!
//! `MuHeap` owns one memory region and overlays it with an array of
//! fixed-size cells.  Management cells mark the boundaries of runs of
//! used or free cells; the data cells between two management cells hold
//! the user's payload.  Allocation scans the runs first-fit from a
//! remembered cursor; freeing coalesces the freed run with any adjacent
//! free runs on both sides.
//!
//! The cell array is modelled as a vector of tagged links plus a byte
//! arena for the payload, and every address handed out is a plain
//! number computed from the region's base, so that all placement and
//! coalescing arithmetic is checked.

use vstd::prelude::*;

verus! {

/// The largest alignment the heap honours.  Addresses at or below this
/// value are reserved, so that the sentinel returned for zero-size
/// allocations (the alignment itself) can never collide with a real
/// heap address.
pub const MAX_ALIGNMENT: usize = 128;

/// The smallest number of cells a heap area may hold.
pub const MIN_NCELLS: usize = 1;

/// Cell size, in bytes, of a heap indexed by narrow (16-bit) indices.
pub const NARROW_CELL_SIZE: usize = 4;

/// Cell size, in bytes, of a heap indexed by wide (32-bit) indices.
pub const WIDE_CELL_SIZE: usize = 8;

/// The largest cell count a narrow heap can address.
pub const NARROW_MAX_CELLS: usize = 0x7fff;

/// The largest cell count a wide heap can address.
pub const WIDE_MAX_CELLS: usize = 0x7fff_ffff;

/// The index width a heap is built with: a construction-time capacity
/// tier.  A narrow heap spends four bytes of bookkeeping per cell and
/// manages at most [`NARROW_MAX_CELLS`] cells; a wide heap spends eight
/// and manages at most [`WIDE_MAX_CELLS`].
#[derive(Clone, Copy)]
pub enum IndexWidth {
    Narrow,
    Wide,
}

/// A link stored in a management cell.  The link of a cell describes
/// the run that starts at that cell.
#[derive(Clone, Copy)]
pub enum HeapLink {
    /// The cells up to (but not including) the given index are in use;
    /// the index is the next management cell.
    Used(usize),
    /// The cells up to the given index are free; the index is the next
    /// management cell.
    Free(usize),
    /// All remaining cells to the end of the array are free.
    End,
}

/// One cell of the management overlay: the link to the next management
/// cell and the mirror link to the previous one.
#[derive(Clone, Copy)]
pub struct HeapCell {
    pub prev: HeapLink,
    pub next: HeapLink,
}

/// One run of the heap, as seen in the abstract view: the half-open
/// cell range `[start, end)` whose first cell is the management cell,
/// and whether the run is free.
pub ghost struct HeapRun {
    pub free: bool,
    pub start: int,
    pub end: int,
}

/// A first-fit heap manager over one memory region.
pub struct MuHeap {
    /// Capacity tier chosen at construction time.
    width: IndexWidth,
    /// Base address of the region as given at construction.
    given_base: usize,
    /// Size in bytes of the region as given at construction.
    given_size: usize,
    /// Base address of the cell array; zero until the heap is built.
    base: usize,
    /// Number of cells in the cell array.
    ncells: usize,
    /// Cell index where the next first-fit scan starts.
    search_start: usize,
    /// The management overlay of the region.
    cells: Vec<HeapCell>,
    /// The payload bytes of the region.
    data: Vec<u8>,
    /// The indices of the management cells, in increasing order.
    bounds: Ghost<Seq<usize>>,
}

impl MuHeap {
    /// Size in bytes of one heap cell.
    pub closed spec fn spec_cell_size(self) -> int {
        match self.width {
            IndexWidth::Narrow => NARROW_CELL_SIZE as int,
            IndexWidth::Wide => WIDE_CELL_SIZE as int,
        }
    }

    /// The largest cell count the chosen index width can address.
    pub closed spec fn spec_max_cells(self) -> int {
        match self.width {
            IndexWidth::Narrow => NARROW_MAX_CELLS as int,
            IndexWidth::Wide => WIDE_MAX_CELLS as int,
        }
    }

    /// Whether the heap has been built (the cell array laid out).
    pub closed spec fn is_built(self) -> bool {
        self.base != 0
    }

    /// The base address of the cell array.
    pub closed spec fn spec_base(self) -> int {
        self.base as int
    }

    /// The number of cells in the cell array.
    pub closed spec fn spec_ncells(self) -> int {
        self.ncells as int
    }

    /// The cell index where the next first-fit scan starts.
    pub closed spec fn spec_search_start(self) -> int {
        self.search_start as int
    }

    /// The payload bytes of the region, indexed by offset from the base.
    pub closed spec fn spec_data(self) -> Seq<u8> {
        self.data@
    }

    /// The region description the heap was declared with.
    pub closed spec fn spec_given(self) -> (int, int) {
        (self.given_base as int, self.given_size as int)
    }

    /// Two management cells are connected when the earlier one's `next`
    /// link names the later one and the later one's `prev` link mirrors
    /// it, with the same used/free tag.
    pub open spec fn cells_connect(cells: Seq<HeapCell>, i: usize, j: usize) -> bool {
        ||| (cells[i as int].next == HeapLink::Used(j) && cells[j as int].prev == HeapLink::Used(i))
        ||| (cells[i as int].next == HeapLink::Free(j) && cells[j as int].prev == HeapLink::Free(i))
    }

    /// The structural invariant of a built heap: the management cells
    /// listed in `bounds` cover the array from cell zero, each linked to
    /// the next with a mirrored back link, the last one opening the
    /// terminal free run, no free run followed by another free run, and
    /// every used run non-empty.  The scan cursor always names a
    /// management cell, and the geometry ties the cell array to the
    /// region the heap was given.
    pub closed spec fn wf_built(self) -> bool {
        let b = self.bounds@;
        let cells = self.cells@;
        &&& self.base != 0
        &&& MIN_NCELLS <= self.ncells
        &&& self.ncells <= self.spec_max_cells()
        &&& cells.len() == self.ncells
        &&& self.data@.len() == self.ncells * self.spec_cell_size()
        &&& self.base % MAX_ALIGNMENT as usize == 0
        &&& self.base >= MAX_ALIGNMENT
        &&& self.base + self.ncells * self.spec_cell_size() <= usize::MAX
        &&& b.len() >= 1
        &&& b[0] == 0usize
        &&& (forall|k: int| 0 <= k < b.len() ==> #[trigger] b[k] < self.ncells)
        &&& (forall|k: int| #![trigger b[k], b[k + 1]] 0 <= k < b.len() - 1 ==> b[k] < b[k + 1])
        &&& cells[b[b.len() - 1] as int].next == HeapLink::End
        &&& (forall|k: int|
            #![trigger b[k], b[k + 1]]
            0 <= k < b.len() - 1 ==> Self::cells_connect(cells, b[k], b[k + 1]))
        &&& (forall|k: int|
            #![trigger b[k], b[k + 1]]
            0 <= k < b.len() - 1 && cells[b[k] as int].next is Free
                ==> cells[b[k + 1] as int].next is Used)
        &&& (forall|k: int|
            #![trigger b[k], b[k + 1]]
            0 <= k < b.len() - 1 && cells[b[k] as int].next is Used
                ==> b[k] + 2 <= b[k + 1])
        &&& cells[0].prev == HeapLink::Used(0usize)
        &&& (exists|k: int| 0 <= k < b.len() && #[trigger] b[k] == self.search_start)
    }

    /// The invariant of a heap that has been declared but not yet
    /// built: no cell array exists, and the declared region (if any) is
    /// one the builder accepts.
    pub closed spec fn wf_pending(self) -> bool {
        &&& self.base == 0
        &&& self.ncells == 0
        &&& self.search_start == 0
        &&& self.cells@.len() == 0
        &&& self.data@.len() == 0
        &&& (self.given_base != 0 || self.given_size != 0)
            ==> Self::region_ok(self.width, self.given_base, self.given_size)
    }

    /// The invariant that holds before and after every public
    /// operation.
    pub open spec fn wf(self) -> bool {
        if self.is_built() {
            self.wf_built()
        } else {
            self.wf_pending()
        }
    }

    /// Whether the heap holds a region description at all.
    pub closed spec fn has_region(self) -> bool {
        self.given_base != 0 && self.given_size != 0
    }

    /// Cell size for a given index width (specification twin of
    /// [`MuHeap::heapcell_size`]).
    pub open spec fn width_cell_size(width: IndexWidth) -> int {
        match width {
            IndexWidth::Narrow => NARROW_CELL_SIZE as int,
            IndexWidth::Wide => WIDE_CELL_SIZE as int,
        }
    }

    /// Largest cell count for a given index width.
    pub open spec fn width_max_cells(width: IndexWidth) -> int {
        match width {
            IndexWidth::Narrow => NARROW_MAX_CELLS as int,
            IndexWidth::Wide => WIDE_MAX_CELLS as int,
        }
    }

    /// The base address the builder settles on: the given base, pushed
    /// up to the lowest address the reserved alignment band allows.
    pub open spec fn spec_adj_base(given_base: int) -> int {
        if given_base < MAX_ALIGNMENT { MAX_ALIGNMENT as int } else { given_base }
    }

    /// The cell count the builder settles on: the adjusted size rounded
    /// down to whole cells, capped at what the index width can address.
    pub open spec fn spec_adj_ncells(width: IndexWidth, given_base: int, given_size: int) -> int {
        let adj_size = given_base + given_size - Self::spec_adj_base(given_base);
        let n = adj_size / Self::width_cell_size(width);
        if n <= Self::width_max_cells(width) { n } else { Self::width_max_cells(width) }
    }

    /// A region description the builder accepts: a non-empty region
    /// whose base either lies below the reserved band (and is pushed up
    /// to it) or is aligned to the largest honoured alignment, whose
    /// end fits in the address space, and which still holds at least
    /// one whole cell after adjustment.
    pub open spec fn region_ok(width: IndexWidth, given_base: usize, given_size: usize) -> bool {
        &&& given_base != 0
        &&& given_size != 0
        &&& given_base >= MAX_ALIGNMENT ==> given_base % MAX_ALIGNMENT as usize == 0
        &&& given_base + given_size <= usize::MAX
        &&& given_base + given_size >= Self::spec_adj_base(given_base as int)
            + Self::width_cell_size(width) * MIN_NCELLS
    }

    /// The runs of the heap, in cell order.  The `start` of each run is
    /// its management cell; its data cells are `start + 1 .. end`.
    pub closed spec fn runs(self) -> Seq<HeapRun> {
        let b = self.bounds@;
        Seq::new(
            b.len(),
            |k: int|
                HeapRun {
                    free: !(self.cells@[b[k] as int].next is Used),
                    start: b[k] as int,
                    end: if k == b.len() - 1 { self.ncells as int } else { b[k + 1] as int },
                },
        )
    }

    /// How many runs are in use.
    pub open spec fn used_count(rs: Seq<HeapRun>) -> int
        decreases rs.len(),
    {
        if rs.len() == 0 {
            0
        } else {
            Self::used_count(rs.drop_last()) + if rs.last().free { 0int } else { 1int }
        }
    }

    /// The shape every run view of a well-formed heap has: runs tile
    /// `[0, ncells)` without gaps, the last run is the terminal free
    /// run, no free run is followed by another free run, and used runs
    /// hold at least one data cell.
    pub open spec fn runs_wf(rs: Seq<HeapRun>, ncells: int) -> bool {
        &&& rs.len() >= 1
        &&& rs[0].start == 0
        &&& rs.last().end == ncells
        &&& rs.last().free
        &&& (forall|k: int| 0 <= k < rs.len() - 1 ==> (#[trigger] rs[k]).end == rs[k + 1].start)
        &&& (forall|k: int| 0 <= k < rs.len() ==> (#[trigger] rs[k]).start < rs[k].end)
        &&& (forall|k: int|
            0 <= k < rs.len() - 1 && (#[trigger] rs[k]).free ==> !rs[k + 1].free)
        &&& (forall|k: int| 0 <= k < rs.len() && !(#[trigger] rs[k]).free ==> rs[k].start + 2 <= rs[k].end)
    }

    /// A built, well-formed heap's run view is itself well-formed.
    pub proof fn lemma_runs_wf(self)
        requires
            self.is_built(),
            self.wf(),
        ensures
            Self::runs_wf(self.runs(), self.spec_ncells()),
    {
        let rs = self.runs();
        let b = self.bounds@;
        assert forall|k: int|
            0 <= k < rs.len() - 1 implies (#[trigger] rs[k]).end == rs[k + 1].start by {
        }
        assert forall|k: int| 0 <= k < rs.len() implies (#[trigger] rs[k]).start < rs[k].end by {
            if k < b.len() - 1 {
                assert(b[k] < b[k + 1]);
            }
        }
        assert forall|k: int| 0 <= k < rs.len() - 1 && (#[trigger] rs[k]).free implies !rs[k + 1].free by {
            let cells = self.cells@;
            assert(Self::cells_connect(cells, b[k], b[k + 1]));
            if k + 1 < b.len() - 1 {
                assert(Self::cells_connect(cells, b[k + 1], b[k + 2]));
            }
        }
        assert forall|k: int| 0 <= k < rs.len() && !(#[trigger] rs[k]).free implies rs[k].start + 2
            <= rs[k].end by {
            if k == b.len() - 1 {
            } else {
                assert(b[k] + 2 <= b[k + 1]);
            }
        }
    }
    /// The index width the heap was declared with.
    pub closed spec fn spec_width(self) -> IndexWidth {
        self.width
    }

    /// `n` rounded up to the next multiple of `m`.
    pub open spec fn spec_round_up(n: int, m: int) -> int {
        ((n + m - 1) / m) * m
    }

    /// The cell count that covers `n` bytes, capped at what the index
    /// width can address.
    pub open spec fn spec_ncells_up(self, n: int) -> int {
        let c = (n + self.spec_cell_size() - 1) / self.spec_cell_size();
        if c <= self.spec_max_cells() { c } else { self.spec_max_cells() }
    }

    /// An alignment the heap honours: a power of two no larger than
    /// [`MAX_ALIGNMENT`].
    pub open spec fn valid_align(align: usize) -> bool {
        align == 1 || align == 2 || align == 4 || align == 8 || align == 16 || align == 32
            || align == 64 || align == 128
    }

    /// The view of a freshly built heap: one terminal free run spanning
    /// the whole cell array, the cursor at cell zero, the payload
    /// zeroed, and the geometry derived from the declared region.
    pub open spec fn fresh_view(self, width: IndexWidth, gb: int, gs: int) -> bool {
        &&& self.is_built()
        &&& self.wf()
        &&& self.spec_width() == width
        &&& self.spec_base() == Self::spec_adj_base(gb)
        &&& self.spec_ncells() == Self::spec_adj_ncells(width, gb, gs)
        &&& self.runs() =~= seq![HeapRun { free: true, start: 0, end: self.spec_ncells() }]
        &&& self.spec_search_start() == 0
        &&& self.spec_data().len() == self.spec_ncells() * self.spec_cell_size()
        &&& (forall|i: int| 0 <= i < self.spec_data().len() ==> self.spec_data()[i] == 0)
    }

    /// The earliest aligned placement cell at or after `cur` (the cell
    /// whose first data cell's offset from the base is a multiple of
    /// the alignment).  Cells skipped for alignment are lost to the
    /// allocation made there.
    pub open spec fn spec_align_cell(self, cur: int, align: int) -> int {
        Self::spec_round_up((cur + 1) * self.spec_cell_size(), align) / self.spec_cell_size() - 1
    }

    /// Whether the run `r` can serve an aligned request for `req`
    /// cells.  The run must be free, and from the aligned placement
    /// cell there must be `req` data cells before the run's end — one
    /// cell earlier for the terminal run, which always keeps its
    /// closing management cell.
    pub open spec fn spec_fits(self, r: HeapRun, last: bool, req: int, align: int) -> bool {
        let bgn = self.spec_align_cell(r.start, align);
        &&& r.free
        &&& bgn + req + 1 <= if last { r.end - 1 } else { r.end }
    }

    /// The run view after claiming cells `[bgn, end)` out of the free
    /// run at position `k`: the runs before `k` stay; a leading free
    /// run remains if alignment skipped cells; then the used run; then
    /// the unclaimed tail of the free run, if any; then the runs after
    /// `k`.
    pub open spec fn alloc_split(rs: Seq<HeapRun>, k: int, bgn: int, end: int) -> Seq<HeapRun> {
        let r = rs[k];
        let g: int = if bgn > r.start { 1 } else { 0 };
        let t: int = if end < r.end { 1 } else { 0 };
        Seq::new(
            (rs.len() + g + t) as nat,
            |i: int|
                if i < k {
                    rs[i]
                } else if g == 1 && i == k {
                    HeapRun { free: true, start: r.start, end: bgn }
                } else if i == k + g {
                    HeapRun { free: false, start: bgn, end: end }
                } else if t == 1 && i == k + g + 1 {
                    HeapRun { free: true, start: end, end: r.end }
                } else {
                    rs[i - g - t]
                },
        )
    }

    /// The run view after freeing the used run at position `j`: the
    /// freed run becomes free and merges with a free run immediately
    /// before it and immediately after it, if either exists.
    pub open spec fn dealloc_merge(rs: Seq<HeapRun>, j: int) -> Seq<HeapRun> {
        let lo: int = if j > 0 && rs[j - 1].free { j - 1 } else { j };
        let hi: int = if j < rs.len() - 1 && rs[j + 1].free { j + 1 } else { j };
        Seq::new(
            (rs.len() - (hi - lo)) as nat,
            |i: int|
                if i < lo {
                    rs[i]
                } else if i == lo {
                    HeapRun { free: true, start: rs[lo].start, end: rs[hi].end }
                } else {
                    rs[i + (hi - lo)]
                },
        )
    }

    /// The run view after extending the used run at position `j` in
    /// place up to cell `end`, consuming the head of the free run that
    /// follows it.
    pub open spec fn grow_extend(rs: Seq<HeapRun>, j: int, end: int) -> Seq<HeapRun> {
        let t: int = if end < rs[j + 1].end { 1 } else { 0 };
        Seq::new(
            (rs.len() - 1 + t) as nat,
            |i: int|
                if i < j {
                    rs[i]
                } else if i == j {
                    HeapRun { free: false, start: rs[j].start, end: end }
                } else if t == 1 && i == j + 1 {
                    HeapRun { free: true, start: end, end: rs[j + 1].end }
                } else {
                    rs[i + 1 - t]
                },
        )
    }

    /// The run view after splitting the used run at position `j` at
    /// cell `end`: the tail becomes a free run, coalesced with the run
    /// after it when that run is free.
    pub open spec fn shrink_split(rs: Seq<HeapRun>, j: int, end: int) -> Seq<HeapRun> {
        let m: int = if j < rs.len() - 1 && rs[j + 1].free { 1 } else { 0 };
        let x: int = if m == 1 { rs[j + 1].end } else { rs[j].end };
        Seq::new(
            (rs.len() + 1 - m) as nat,
            |i: int|
                if i < j {
                    rs[i]
                } else if i == j {
                    HeapRun { free: false, start: rs[j].start, end: end }
                } else if i == j + 1 {
                    HeapRun { free: true, start: end, end: x }
                } else {
                    rs[i - 1 + m]
                },
        )
    }

    /// Size in bytes of one heap cell.
    pub fn heapcell_size(&self) -> (r: usize)
        ensures
            r == self.spec_cell_size(),
    {
        match self.width {
            IndexWidth::Narrow => NARROW_CELL_SIZE,
            IndexWidth::Wide => WIDE_CELL_SIZE,
        }
    }

    /// The largest cell count the chosen index width can address.
    fn max_cells(&self) -> (r: usize)
        ensures
            r == self.spec_max_cells(),
    {
        match self.width {
            IndexWidth::Narrow => NARROW_MAX_CELLS,
            IndexWidth::Wide => WIDE_MAX_CELLS,
        }
    }

    /// Rounds `n` up to the next multiple of `m`.
    fn round_up(n: usize, m: usize) -> (r: usize)
        requires
            m >= 1,
            n + m - 1 <= usize::MAX,
        ensures
            r == Self::spec_round_up(n as int, m as int),
            (r as int) % (m as int) == 0,
            n <= r < n + m,
    {
        let q: usize = if n == 0 { 0 } else { (n - 1) / m + 1 };
        proof {
            let ni = n as int;
            let mi = m as int;
            if n == 0 {
                assert((mi - 1) / mi == 0) by (nonlinear_arith)
                    requires mi >= 1;
            } else {
                assert((ni - 1) / mi + 1 == (ni + mi - 1) / mi) by (nonlinear_arith)
                    requires mi >= 1 && ni >= 1;
            }
            assert(q as int == (ni + mi - 1) / mi);
            assert(((ni + mi - 1) / mi) * mi % mi == 0) by (nonlinear_arith)
                requires mi >= 1;
            assert(ni <= ((ni + mi - 1) / mi) * mi < ni + mi) by (nonlinear_arith)
                requires mi >= 1;
        }
        q * m
    }

    /// The cell count that covers `n` bytes, capped at what the index
    /// width can address.
    fn ncells_up(&self, n: usize) -> (r: usize)
        ensures
            r == self.spec_ncells_up(n as int),
    {
        let m = self.heapcell_size();
        let c: usize = if n == 0 { 0 } else { (n - 1) / m + 1 };
        proof {
            let ni = n as int;
            let mi = m as int;
            if n > 0 {
                assert((ni - 1) / mi + 1 == (ni + mi - 1) / mi) by (nonlinear_arith)
                    requires mi >= 1 && ni >= 1;
            }
        }
        let mx = self.max_cells();
        if c <= mx { c } else { mx }
    }

    /// The whole number of cells that fit in `n` bytes, capped at what
    /// the index width can address.
    fn ncells_down(&self, n: usize) -> (r: usize)
        ensures
            r == ({
                let c = (n as int) / self.spec_cell_size();
                if c <= self.spec_max_cells() { c } else { self.spec_max_cells() }
            }),
    {
        let m = self.heapcell_size();
        let c: usize = n / m;
        let mx = self.max_cells();
        if c <= mx { c } else { mx }
    }

    /// The address of the first data cell of the run whose management
    /// cell is `cur_i`.
    fn cell_to_ptr(&self, cur_i: usize) -> (r: usize)
        requires
            self.wf(),
            self.is_built(),
            cur_i < self.spec_ncells(),
        ensures
            r == self.spec_base() + (cur_i + 1) * self.spec_cell_size(),
    {
        proof {
            let cs = self.spec_cell_size();
            assert((cur_i + 1) * cs <= self.ncells * cs) by (nonlinear_arith)
                requires cs >= 1 && cur_i + 1 <= self.ncells as int;
        }
        self.base + (cur_i + 1) * self.heapcell_size()
    }

    /// The management cell of the allocation that starts at `ptr`.
    fn ptr_to_cell(&self, ptr: usize) -> (r: usize)
        requires
            self.wf(),
            self.is_built(),
            self.spec_base() + self.spec_cell_size() <= ptr,
            ptr <= self.spec_base() + self.spec_ncells() * self.spec_cell_size(),
            (ptr - self.spec_base()) % self.spec_cell_size() == 0,
        ensures
            r == (ptr - self.spec_base()) / self.spec_cell_size() - 1,
            ptr == self.spec_base() + (r + 1) * self.spec_cell_size(),
            r < self.spec_ncells(),
    {
        let off = ptr - self.base;
        let cs = self.heapcell_size();
        proof {
            let oi = off as int;
            let ci = cs as int;
            assert(oi / ci * ci == oi) by (nonlinear_arith)
                requires ci >= 1 && oi % ci == 0 && oi >= 0;
            assert(oi / ci >= 1 && oi / ci <= self.ncells as int) by (nonlinear_arith)
                requires ci >= 1 && oi % ci == 0 && ci <= oi <= self.ncells as int * ci;
        }
        off / cs - 1
    }

    /// The earliest aligned placement cell at or after `cur_i`.
    fn align_cell(&self, cur_i: usize, align: usize) -> (r: usize)
        requires
            self.wf(),
            self.is_built(),
            cur_i < self.spec_ncells(),
            Self::valid_align(align),
        ensures
            r == self.spec_align_cell(cur_i as int, align as int),
            cur_i <= r,
            r <= cur_i + align,
            (self.spec_base() + (r + 1) * self.spec_cell_size()) % (align as int) == 0,
    {
        let cs = self.heapcell_size();
        proof {
            assert((cur_i + 1) * cs as int <= self.ncells * cs as int) by (nonlinear_arith)
                requires cs as int >= 1 && cur_i + 1 <= self.ncells as int;
        }
        let cur_mem_off = (cur_i + 1) * cs;
        let ali_mem_off = Self::round_up(cur_mem_off, align);
        proof {
            let o = cur_mem_off as int;
            let a = ali_mem_off as int;
            let ci = cs as int;
            let al = align as int;
            let bs = self.base as int;
            // The rounded offset is still a whole number of cells.
            vstd::arithmetic::div_mod::lemma_mod_multiples_basic(cur_i + 1 as int, ci);
            assert(o % ci == 0);
            if align <= cs {
                assert(ci % al == 0);
                assert(o % al == 0) by {
                    let q = ci / al;
                    vstd::arithmetic::div_mod::lemma_fundamental_div_mod(ci, al);
                    assert(o == ((cur_i + 1) * q) * al) by (nonlinear_arith)
                        requires o == (cur_i + 1) * ci && ci == al * q;
                    vstd::arithmetic::div_mod::lemma_mod_multiples_basic((cur_i + 1) * q, al);
                }
                assert(a == o) by (nonlinear_arith)
                    requires
                        o % al == 0,
                        a % al == 0,
                        o <= a < o + al,
                        al >= 1;
            } else {
                assert(al % ci == 0);
                assert(a % ci == 0) by {
                    let q = al / ci;
                    let p = a / al;
                    vstd::arithmetic::div_mod::lemma_fundamental_div_mod(al, ci);
                    vstd::arithmetic::div_mod::lemma_fundamental_div_mod(a, al);
                    assert(a == (p * q) * ci) by (nonlinear_arith)
                        requires a == al * p && al == ci * q;
                    vstd::arithmetic::div_mod::lemma_mod_multiples_basic(p * q, ci);
                }
            }
            assert(a % ci == 0);
            assert((a / ci) * ci == a) by (nonlinear_arith)
                requires a % ci == 0 && ci >= 1 && a >= 0;
            assert(a / ci >= (cur_i + 1) as int) by (nonlinear_arith)
                requires (a / ci) * ci == a && a >= o && o == (cur_i + 1) * ci && ci >= 1;
            assert(a / ci <= cur_i + 1 + al) by (nonlinear_arith)
                requires (a / ci) * ci == a && a < o + al && o == (cur_i + 1) * ci && ci >= 1 && al
                    >= 1;
            // The base honours every valid alignment, so the address of
            // the placement cell's first data cell is aligned too.
            assert(bs % al == 0) by (nonlinear_arith)
                requires
                    bs % (MAX_ALIGNMENT as int) == 0,
                    (MAX_ALIGNMENT as int) % al == 0,
                    al >= 1,
                    bs >= 0;
            assert((bs + a) % al == 0) by {
                vstd::arithmetic::div_mod::lemma_add_mod_noop(bs, a, al);
            }
        }
        let ali_mem_i = ali_mem_off / cs;
        ali_mem_i - 1
    }

    /// In a sequence sorted between neighbours, any earlier element is
    /// below any later one.
    proof fn lemma_sorted_pair(b: Seq<usize>, i: int, j: int)
        requires
            forall|m: int| #![trigger b[m], b[m + 1]] 0 <= m < b.len() - 1 ==> b[m] < b[m + 1],
            0 <= i < j < b.len(),
        ensures
            b[i] < b[j],
        decreases j - i,
    {
        assert(b[i] < b[i + 1]);
        if i + 1 < j {
            Self::lemma_sorted_pair(b, i + 1, j);
        }
    }

    /// A sequence sorted between neighbours is sorted overall.
    proof fn lemma_sorted_all(b: Seq<usize>)
        requires
            forall|m: int| #![trigger b[m], b[m + 1]] 0 <= m < b.len() - 1 ==> b[m] < b[m + 1],
        ensures
            forall|i: int, j: int| 0 <= i < j < b.len() ==> b[i] < b[j],
    {
        assert forall|i: int, j: int| 0 <= i < j < b.len() implies b[i] < b[j] by {
            Self::lemma_sorted_pair(b, i, j);
        }
    }

    /// The bounds list after claiming `[bgn, end)` out of the run at
    /// position `k`: the claimed run's management cell, preceded by the
    /// gap's cell when alignment skipped cells, and followed by the
    /// tail's cell when the claim stops short of the run's end.
    pub open spec fn alloc_bounds(
        b: Seq<usize>,
        k: int,
        cur: usize,
        bgn: usize,
        end: usize,
        g: int,
        t: int,
    ) -> Seq<usize> {
        Seq::new(
            (b.len() + g + t) as nat,
            |i: int|
                if i < k {
                    b[i]
                } else if g == 1 && i == k {
                    cur
                } else if i == k + g {
                    bgn
                } else if t == 1 && i == k + g + 1 {
                    end
                } else {
                    b[i - g - t]
                },
        )
    }

    /// The relation between a heap and its state after the boundary
    /// links of a claim have been rewritten: everything outside the
    /// four touched cells is unchanged, the touched cells carry the new
    /// links, and the bounds list is respliced.
    spec fn alloc_ctx(
        h0: MuHeap,
        h1: MuHeap,
        k: int,
        cur: usize,
        bgn: usize,
        end: usize,
        nxt: usize,
    ) -> bool {
        let b0 = h0.bounds@;
        let c0 = h0.cells@;
        let c1 = h1.cells@;
        let g: int = if cur < bgn { 1 } else { 0 };
        let t: int = if end < nxt { 1 } else { 0 };
        &&& h0.wf_built()
        &&& 0 <= k < b0.len()
        &&& b0[k] == cur
        &&& cur <= bgn
        &&& bgn + 2 <= end
        &&& (k == b0.len() - 1 ==> {
            &&& c0[cur as int].next is End
            &&& nxt == h0.ncells
            &&& end + 1 <= nxt
        })
        &&& (k < b0.len() - 1 ==> {
            &&& c0[cur as int].next == HeapLink::Free(nxt)
            &&& b0[k + 1] == nxt
            &&& end <= nxt
        })
        &&& h1.width == h0.width
        &&& h1.given_base == h0.given_base
        &&& h1.given_size == h0.given_size
        &&& h1.base == h0.base
        &&& h1.ncells == h0.ncells
        &&& h1.data@ == h0.data@
        &&& h1.search_start == end
        &&& h1.bounds@ == Self::alloc_bounds(b0, k, cur, bgn, end, g, t)
        &&& c1.len() == c0.len()
        &&& (forall|i: int|
            0 <= i < c1.len() && i != cur && i != bgn && i != end && i != nxt ==> c1[i]
                == #[trigger] c0[i])
        &&& (cur < bgn ==> {
            &&& c1[cur as int].next == HeapLink::Free(bgn)
            &&& c1[cur as int].prev == c0[cur as int].prev
            &&& c1[bgn as int].prev == HeapLink::Free(cur)
        })
        &&& (cur == bgn ==> c1[bgn as int].prev == c0[bgn as int].prev)
        &&& c1[bgn as int].next == HeapLink::Used(end)
        &&& c1[end as int].prev == HeapLink::Used(bgn)
        &&& (end < nxt && nxt < h0.ncells ==> {
            &&& c1[end as int].next == HeapLink::Free(nxt)
            &&& c1[nxt as int].prev == HeapLink::Free(end)
            &&& c1[nxt as int].next == c0[nxt as int].next
        })
        &&& (end < nxt && nxt == h0.ncells ==> c1[end as int].next == HeapLink::End)
        &&& (end == nxt ==> c1[end as int].next == c0[end as int].next)
    }

    /// After a claim, the new bounds list is still sorted, starts at
    /// cell zero and stays inside the array.
    #[verifier::rlimit(60)]
    proof fn lemma_alloc_cells_sorted(
        h0: MuHeap,
        h1: MuHeap,
        k: int,
        cur: usize,
        bgn: usize,
        end: usize,
        nxt: usize,
    )
        requires
            Self::alloc_ctx(h0, h1, k, cur, bgn, end, nxt),
        ensures
            h1.bounds@[0] == 0usize,
            forall|m: int| 0 <= m < h1.bounds@.len() ==> #[trigger] h1.bounds@[m] < h1.ncells,
            forall|m: int|
                #![trigger h1.bounds@[m], h1.bounds@[m + 1]]
                0 <= m < h1.bounds@.len() - 1 ==> h1.bounds@[m] < h1.bounds@[m + 1],
            forall|i: int, j: int|
                0 <= i < j < h1.bounds@.len() ==> h1.bounds@[i] < h1.bounds@[j],
            forall|m: int| 0 <= m < k ==> #[trigger] h0.bounds@[m] < cur,
            forall|m: int| k + 2 <= m < h0.bounds@.len() ==> nxt < #[trigger] h0.bounds@[m],
    {
        let b0 = h0.bounds@;
        let b1 = h1.bounds@;
        let g: int = if cur < bgn { 1 } else { 0 };
        let t: int = if end < nxt { 1 } else { 0 };
        let n = b0.len() as int;
        Self::lemma_sorted_all(b0);
        assert forall|m: int| 0 <= m < k implies #[trigger] b0[m] < cur by {
            Self::lemma_sorted_pair(b0, m, k);
        }
        assert forall|m: int| k + 2 <= m < n implies nxt < #[trigger] b0[m] by {
            Self::lemma_sorted_pair(b0, k + 1, m);
        }
        assert(end < h1.ncells) by {
            if k < n - 1 {
                assert(b0[k + 1] < h0.ncells);
            }
        }
        assert forall|m: int|
            #![trigger b1[m], b1[m + 1]]
            0 <= m < b1.len() - 1 implies b1[m] < b1[m + 1] by {
            let q = m - g - t;
            if m >= k + g + 1 + t && q > k {
                assert(b0[q] < b0[q + 1]);
            }
        }
        Self::lemma_sorted_all(b1);
        assert(b1[0] == 0usize) by {
            if k == 0 && g == 0 {
                assert(b1[0] == bgn && bgn == cur);
            }
        }
    }

    /// After a claim, consecutive bounds are connected and the last
    /// bound opens the terminal free run.
    #[verifier::rlimit(100)]
    proof fn lemma_alloc_cells_connect(
        h0: MuHeap,
        h1: MuHeap,
        k: int,
        cur: usize,
        bgn: usize,
        end: usize,
        nxt: usize,
    )
        requires
            Self::alloc_ctx(h0, h1, k, cur, bgn, end, nxt),
        ensures
            forall|m: int|
                #![trigger h1.bounds@[m], h1.bounds@[m + 1]]
                0 <= m < h1.bounds@.len() - 1 ==> Self::cells_connect(
                    h1.cells@,
                    h1.bounds@[m],
                    h1.bounds@[m + 1],
                ),
            h1.cells@[h1.bounds@[h1.bounds@.len() - 1] as int].next == HeapLink::End,
    {
        let b0 = h0.bounds@;
        let b1 = h1.bounds@;
        let c0 = h0.cells@;
        let c1 = h1.cells@;
        let g: int = if cur < bgn { 1 } else { 0 };
        let t: int = if end < nxt { 1 } else { 0 };
        let n = b0.len() as int;
        Self::lemma_alloc_cells_sorted(h0, h1, k, cur, bgn, end, nxt);
        assert forall|m: int| 0 <= m < b1.len() - 1 implies Self::cells_connect(
            c1,
            #[trigger] b1[m],
            b1[m + 1],
        ) by {
            if m < k - 1 {
                assert(b1[m] == b0[m] && b1[m + 1] == b0[m + 1]);
                assert(Self::cells_connect(c0, b0[m], b0[m + 1]));
            } else if m == k - 1 {
                assert(b1[m] == b0[m] && b1[m + 1] == cur && b0[m + 1] == cur);
                assert(Self::cells_connect(c0, b0[m], b0[m + 1]));
                assert(c1[cur as int].prev == c0[cur as int].prev);
                assert(c1[b0[m] as int] == c0[b0[m] as int]);
            } else if g == 1 && m == k {
                assert(c1[cur as int].next == HeapLink::Free(bgn));
                assert(c1[bgn as int].prev == HeapLink::Free(cur));
            } else if m == k + g {
                assert(b1[m] == bgn && c1[bgn as int].next == HeapLink::Used(end));
                assert(b1[m + 1] == (if t == 1 { end } else { b0[k + 1] }));
                assert(t == 0 ==> b0[k + 1] == end);
                assert(c1[end as int].prev == HeapLink::Used(bgn));
            } else if t == 1 && m == k + g + 1 {
                assert(b1[m] == end && b1[m + 1] == b0[k + 1]);
                assert(k < n - 1 && nxt < h0.ncells && b0[k + 1] == nxt);
                assert(c1[end as int].next == HeapLink::Free(nxt));
                assert(c1[nxt as int].prev == HeapLink::Free(end));
            } else {
                let q = m - g - t;
                assert(b1[m] == b0[q]);
                assert(b1[m + 1] == b0[q + 1]);
                assert(q >= k + 1);
                assert(Self::cells_connect(c0, b0[q], b0[q + 1]));
                assert(nxt < b0[q + 1]);
                if q > k + 1 {
                    assert(nxt < b0[q]);
                    assert(c1[b0[q] as int] == c0[b0[q] as int]);
                } else {
                    assert(b0[q] == nxt);
                    assert(end < nxt ==> c1[nxt as int].next == c0[nxt as int].next);
                    assert(end == nxt ==> c1[nxt as int].next == c0[nxt as int].next);
                }
                assert(c1[b0[q + 1] as int] == c0[b0[q + 1] as int]);
                assert(c1[b0[q] as int].next == c0[b0[q] as int].next);
            }
        }
        assert(c1[b1[b1.len() - 1] as int].next == HeapLink::End) by {
            if k == n - 1 {
                assert(b1[b1.len() - 1] == end);
            } else {
                assert(b1[b1.len() - 1] == b0[n - 1]);
                if n - 1 >= k + 2 {
                    assert(nxt < b0[n - 1]);
                } else {
                    assert(n - 1 == k + 1 && b0[n - 1] == nxt);
                    assert(c0[nxt as int].next is End ==> false);
                    assert(Self::cells_connect(c0, b0[k], b0[k + 1]));
                }
            }
        }
    }

    /// After a claim, no free run is followed by another free run, and
    /// used runs keep at least one data cell.
    #[verifier::rlimit(100)]
    proof fn lemma_alloc_cells_tags(
        h0: MuHeap,
        h1: MuHeap,
        k: int,
        cur: usize,
        bgn: usize,
        end: usize,
        nxt: usize,
    )
        requires
            Self::alloc_ctx(h0, h1, k, cur, bgn, end, nxt),
        ensures
            forall|m: int|
                #![trigger h1.bounds@[m], h1.bounds@[m + 1]]
                0 <= m < h1.bounds@.len() - 1 && h1.cells@[h1.bounds@[m] as int].next is Free
                    ==> h1.cells@[h1.bounds@[m + 1] as int].next is Used,
            forall|m: int|
                #![trigger h1.bounds@[m], h1.bounds@[m + 1]]
                0 <= m < h1.bounds@.len() - 1 && h1.cells@[h1.bounds@[m] as int].next is Used
                    ==> h1.bounds@[m] + 2 <= h1.bounds@[m + 1],
    {
        let b0 = h0.bounds@;
        let b1 = h1.bounds@;
        let c0 = h0.cells@;
        let c1 = h1.cells@;
        let g: int = if cur < bgn { 1 } else { 0 };
        let t: int = if end < nxt { 1 } else { 0 };
        let n = b0.len() as int;
        Self::lemma_alloc_cells_sorted(h0, h1, k, cur, bgn, end, nxt);
        assert forall|m: int|
            0 <= m < b1.len() - 1 && c1[#[trigger] b1[m] as int].next is Free implies c1[b1[m
            + 1] as int].next is Used by {
            if m < k - 1 {
                assert(b1[m] == b0[m] && b1[m + 1] == b0[m + 1]);
                assert(c1[b0[m] as int] == c0[b0[m] as int]);
                assert(c1[b0[m + 1] as int] == c0[b0[m + 1] as int]);
            } else if m == k - 1 {
                assert(b1[m] == b0[m]);
                assert(c1[b0[m] as int] == c0[b0[m] as int]);
                // The old run at `cur` was free or terminal, so the run
                // before it was in use.
                assert(c0[b0[m] as int].next is Free ==> c0[b0[m + 1] as int].next is Used);
                assert(c0[cur as int].next is Used ==> false);
            } else if g == 1 && m == k {
                assert(c1[b1[m + 1] as int].next == HeapLink::Used(end));
            } else if m == k + g {
                assert(c1[b1[m] as int].next == HeapLink::Used(end));
            } else if t == 1 && m == k + g + 1 {
                assert(b1[m + 1] == b0[k + 1] && b0[k + 1] == nxt);
                assert(c0[cur as int].next is Free);
                assert(c0[nxt as int].next is Used);
                assert(c1[nxt as int].next == c0[nxt as int].next);
            } else {
                let q = m - g - t;
                assert(b1[m] == b0[q]);
                assert(b1[m + 1] == b0[q + 1]);
                assert(q >= k + 1);
                assert(c0[b0[q] as int].next is Free ==> c0[b0[q + 1] as int].next is Used);
                if q > k + 1 {
                    assert(nxt < b0[q]);
                    assert(c1[b0[q] as int] == c0[b0[q] as int]);
                } else {
                    assert(b0[q] == nxt);
                }
                assert(c1[b0[q] as int].next == c0[b0[q] as int].next);
                assert(nxt < b0[q + 1]);
                assert(c1[b0[q + 1] as int] == c0[b0[q + 1] as int]);
            }
        }
        assert forall|m: int|
            0 <= m < b1.len() - 1 && c1[#[trigger] b1[m] as int].next is Used implies b1[m] + 2
            <= b1[m + 1] by {
            if m < k {
                assert(b1[m] == b0[m]);
                assert(c1[b0[m] as int] == c0[b0[m] as int]);
                if m == k - 1 {
                    assert(b1[m + 1] == cur && b0[m + 1] == cur);
                } else {
                    assert(b1[m + 1] == b0[m + 1]);
                }
            } else if m >= k + g + 1 + t {
                let q = m - g - t;
                assert(b1[m] == b0[q]);
                assert(b1[m + 1] == b0[q + 1]);
                assert(b0[q] + 2 <= b0[q + 1] || !(c0[b0[q] as int].next is Used));
                if q > k + 1 {
                    assert(nxt < b0[q]);
                    assert(c1[b0[q] as int] == c0[b0[q] as int]);
                } else {
                    assert(b0[q] == nxt);
                }
                assert(c1[b0[q] as int].next == c0[b0[q] as int].next);
            }
        }
    }

    /// After a claim, the whole chain invariant holds again.
    #[verifier::rlimit(100)]
    proof fn lemma_alloc_cells_wf(
        h0: MuHeap,
        h1: MuHeap,
        k: int,
        cur: usize,
        bgn: usize,
        end: usize,
        nxt: usize,
    )
        requires
            Self::alloc_ctx(h0, h1, k, cur, bgn, end, nxt),
        ensures
            h1.wf_built(),
    {
        let b0 = h0.bounds@;
        let b1 = h1.bounds@;
        let c0 = h0.cells@;
        let c1 = h1.cells@;
        let g: int = if cur < bgn { 1 } else { 0 };
        let t: int = if end < nxt { 1 } else { 0 };
        Self::lemma_alloc_cells_sorted(h0, h1, k, cur, bgn, end, nxt);
        Self::lemma_alloc_cells_connect(h0, h1, k, cur, bgn, end, nxt);
        Self::lemma_alloc_cells_tags(h0, h1, k, cur, bgn, end, nxt);
        assert(c1[0].prev == HeapLink::Used(0usize)) by {
            if cur == 0 && bgn == 0 {
            } else {
                assert(0 != bgn as int || cur < bgn);
                assert(cur == bgn ==> c1[bgn as int].prev == c0[bgn as int].prev);
            }
        }
        assert(exists|m: int| 0 <= m < b1.len() && #[trigger] b1[m] == h1.search_start) by {
            if t == 1 {
                assert(b1[k + g + 1] == end);
            } else {
                assert(b1[k + g + 1] == b0[k + 1] && b0[k + 1] == end);
            }
        }
    }

    /// After a claim, the run view is exactly the splice described by
    /// [`MuHeap::alloc_split`].
    #[verifier::rlimit(100)]
    proof fn lemma_alloc_cells_runs(
        h0: MuHeap,
        h1: MuHeap,
        k: int,
        cur: usize,
        bgn: usize,
        end: usize,
        nxt: usize,
    )
        requires
            Self::alloc_ctx(h0, h1, k, cur, bgn, end, nxt),
        ensures
            h1.runs() == Self::alloc_split(h0.runs(), k, bgn as int, end as int),
    {
        let b0 = h0.bounds@;
        let b1 = h1.bounds@;
        let c0 = h0.cells@;
        let c1 = h1.cells@;
        let g: int = if cur < bgn { 1 } else { 0 };
        let t: int = if end < nxt { 1 } else { 0 };
        let n = b0.len() as int;
        Self::lemma_alloc_cells_sorted(h0, h1, k, cur, bgn, end, nxt);
        let rs0 = h0.runs();
        let rs1 = h1.runs();
        let sp = Self::alloc_split(rs0, k, bgn as int, end as int);
        assert(rs0[k].start == cur as int && rs0[k].end == nxt as int);
        assert(rs1.len() == sp.len());
        assert forall|i: int| 0 <= i < rs1.len() implies rs1[i] == sp[i] by {
            if i < k {
                assert(b1[i] == b0[i]);
                assert(c1[b0[i] as int] == c0[b0[i] as int]);
                if i == k - 1 {
                    assert(b1[i + 1] == (if g == 1 { cur } else { bgn }));
                    assert(b1[i + 1] == cur && b0[i + 1] == cur);
                } else {
                    assert(b1[i + 1] == b0[i + 1]);
                }
                assert(sp[i] == rs0[i]);
            } else if g == 1 && i == k {
                assert(b1[i] == cur && b1[i + 1] == bgn);
                assert(c1[cur as int].next == HeapLink::Free(bgn));
            } else if i == k + g {
                assert(b1[i] == bgn);
                assert(c1[bgn as int].next == HeapLink::Used(end));
                if t == 1 {
                    assert(b1[i + 1] == end);
                } else {
                    assert(b1[i + 1] == b0[k + 1] && b0[k + 1] == end);
                }
            } else if t == 1 && i == k + g + 1 {
                assert(b1[i] == end);
                if k == n - 1 {
                    assert(i == b1.len() - 1);
                    assert(c1[end as int].next == HeapLink::End);
                    assert(rs0[k].end == h0.ncells);
                } else {
                    assert(c1[end as int].next == HeapLink::Free(nxt));
                    assert(b1[i + 1] == b0[k + 1] && b0[k + 1] == nxt);
                }
            } else {
                let q = i - g - t;
                assert(b1[i] == b0[q]);
                assert(q >= k + 1);
                assert(sp[i] == rs0[q]);
                if q == k + 1 {
                    assert(b1[i] == nxt);
                    assert(c1[nxt as int].next == c0[nxt as int].next);
                } else {
                    assert(nxt < b0[q]);
                    assert(c1[b1[i] as int] == c0[b1[i] as int]);
                }
                if i == rs1.len() - 1 {
                    assert(q == n - 1);
                } else {
                    assert(b1[i + 1] == b0[q + 1]);
                }
            }
        }
        assert(rs1 =~= sp);
    }

    /// Claims the cells `[bgn_i, end_i)` out of the free run whose
    /// management cell is `cur_i`, rewriting the boundary links: a
    /// leading free run for skipped alignment cells, the used run, and
    /// the unclaimed tail.  The scan cursor moves past the claim.
    fn alloc_cells(&mut self, Ghost(k): Ghost<int>, cur_i: usize, bgn_i: usize, end_i: usize, nxt_i: usize)
        requires
            old(self).wf(),
            old(self).is_built(),
            0 <= k < old(self).bounds@.len(),
            old(self).bounds@[k] == cur_i,
            cur_i <= bgn_i,
            bgn_i + 2 <= end_i,
            k == old(self).bounds@.len() - 1 ==> {
                &&& old(self).cells@[cur_i as int].next is End
                &&& nxt_i == old(self).spec_ncells()
                &&& end_i + 1 <= nxt_i
            },
            k < old(self).bounds@.len() - 1 ==> {
                &&& old(self).cells@[cur_i as int].next == HeapLink::Free(nxt_i)
                &&& old(self).bounds@[k + 1] == nxt_i
                &&& end_i <= nxt_i
            },
        ensures
            final(self).wf(),
            final(self).is_built(),
            final(self).runs() == Self::alloc_split(old(self).runs(), k, bgn_i as int, end_i as int),
            final(self).spec_search_start() == end_i,
            final(self).spec_base() == old(self).spec_base(),
            final(self).spec_ncells() == old(self).spec_ncells(),
            final(self).spec_cell_size() == old(self).spec_cell_size(),
            final(self).spec_width() == old(self).spec_width(),
            final(self).spec_given() == old(self).spec_given(),
            final(self).spec_data() == old(self).spec_data(),
    {
        let ghost h0 = *old(self);
        let ghost oldb = old(self).bounds@;
        proof {
            Self::lemma_sorted_all(oldb);
            if k < oldb.len() - 1 {
                assert(oldb[k + 1] < h0.ncells);
            }
        }

        if cur_i < bgn_i {
            // A leading free run keeps the cells skipped for alignment.
            let c = self.cells[cur_i];
            self.cells.set(cur_i, HeapCell { prev: c.prev, next: HeapLink::Free(bgn_i) });
            let c2 = self.cells[bgn_i];
            self.cells.set(bgn_i, HeapCell { prev: HeapLink::Free(cur_i), next: c2.next });
        }
        // The claimed run.
        let c3 = self.cells[bgn_i];
        self.cells.set(bgn_i, HeapCell { prev: c3.prev, next: HeapLink::Used(end_i) });
        let c4 = self.cells[end_i];
        self.cells.set(end_i, HeapCell { prev: HeapLink::Used(bgn_i), next: c4.next });
        // The unclaimed tail stays free.
        if end_i < nxt_i {
            if nxt_i < self.ncells {
                let c5 = self.cells[end_i];
                self.cells.set(end_i, HeapCell { prev: c5.prev, next: HeapLink::Free(nxt_i) });
                let c6 = self.cells[nxt_i];
                self.cells.set(nxt_i, HeapCell { prev: HeapLink::Free(end_i), next: c6.next });
            } else {
                let c5 = self.cells[end_i];
                self.cells.set(end_i, HeapCell { prev: c5.prev, next: HeapLink::End });
            }
        }
        self.search_start = end_i;

        let ghost g: int = if cur_i < bgn_i { 1 } else { 0 };
        let ghost t: int = if end_i < nxt_i { 1 } else { 0 };
        let ghost newb: Seq<usize> = Self::alloc_bounds(oldb, k, cur_i, bgn_i, end_i, g, t);
        self.bounds = Ghost(newb);

        proof {
            assert(Self::alloc_ctx(h0, *self, k, cur_i, bgn_i, end_i, nxt_i));
            Self::lemma_alloc_cells_wf(h0, *self, k, cur_i, bgn_i, end_i, nxt_i);
            Self::lemma_alloc_cells_runs(h0, *self, k, cur_i, bgn_i, end_i, nxt_i);
        }
    }

    /// The position in scan order: the `t`-th run visited by a scan
    /// that starts at run position `p0` and wraps at the end.
    pub open spec fn scan_idx(p0: int, t: int, len: int) -> int {
        if p0 + t < len {
            p0 + t
        } else {
            p0 + t - len
        }
    }

    /// The run position the scan cursor stands on.
    pub closed spec fn cursor_pos(self) -> int {
        choose|m: int| 0 <= m < self.bounds@.len() && self.bounds@[m] == self.search_start
    }

    /// Whether the run at position `m` can serve an aligned request for
    /// `req` cells.
    pub open spec fn fits_at(self, m: int, req: int, align: int) -> bool {
        self.spec_fits(self.runs()[m], m == self.runs().len() - 1, req, align)
    }

    /// Whether `ptr` is the address of the live allocation at run
    /// position `m`, made for `size` bytes.
    pub open spec fn live_at(self, m: int, ptr: usize, size: usize) -> bool {
        let rs = self.runs();
        &&& 0 <= m < rs.len()
        &&& !rs[m].free
        &&& ptr == self.spec_base() + (rs[m].start + 1) * self.spec_cell_size()
        &&& rs[m].end - rs[m].start - 1 == self.spec_ncells_up(size as int)
    }

    /// Whether `ptr` is the address of a live allocation of `size`
    /// bytes.
    pub open spec fn is_live(self, ptr: usize, size: usize) -> bool {
        exists|m: int| self.live_at(m, ptr, size)
    }

    /// What a successful allocation did, witnessed by the number of
    /// scan steps it took: the chosen run is the first one in scan
    /// order from the cursor that fits; the claim is placed at the
    /// aligned start of that run; the view is respliced accordingly and
    /// the cursor moves past the claim.
    pub open spec fn alloc_success_at(
        pre: MuHeap,
        post: MuHeap,
        r: usize,
        size: usize,
        align: usize,
        steps: int,
    ) -> bool {
        let rs0 = pre.runs();
        let len = rs0.len() as int;
        let req = pre.spec_ncells_up(size as int);
        let km = Self::scan_idx(pre.cursor_pos(), steps, len);
        let bgn = pre.spec_align_cell(rs0[km].start, align as int);
        let end = bgn + req + 1;
        &&& 0 <= steps < len
        &&& pre.fits_at(km, req, align as int)
        &&& (forall|t: int|
            0 <= t < steps ==> !pre.fits_at(
                Self::scan_idx(pre.cursor_pos(), t, len),
                req,
                align as int,
            ))
        &&& r == pre.spec_base() + (bgn + 1) * pre.spec_cell_size()
        &&& post.runs() == Self::alloc_split(rs0, km, bgn, end)
        &&& post.spec_search_start() == end
        &&& post.live_at(km + if bgn > rs0[km].start { 1int } else { 0int }, r, size)
    }

    /// A successful allocation is a first fit for some number of scan
    /// steps.
    pub open spec fn alloc_success(
        pre: MuHeap,
        post: MuHeap,
        r: usize,
        size: usize,
        align: usize,
    ) -> bool {
        exists|steps: int| Self::alloc_success_at(pre, post, r, size, align, steps)
    }

    /// Everything a call to the allocator leaves unchanged.
    pub open spec fn same_heap_frame(pre: MuHeap, post: MuHeap) -> bool {
        &&& post.spec_base() == pre.spec_base()
        &&& post.spec_ncells() == pre.spec_ncells()
        &&& post.spec_cell_size() == pre.spec_cell_size()
        &&& post.spec_width() == pre.spec_width()
        &&& post.spec_given() == pre.spec_given()
    }

    /// Allocates `size` bytes aligned to `align` out of a built heap,
    /// scanning the runs first-fit from the cursor and wrapping at the
    /// array's end.  Returns the address, or zero when no run fits.
    #[verifier::rlimit(100)]
    fn do_alloc(&mut self, size: usize, align: usize) -> (r: usize)
        requires
            old(self).wf(),
            old(self).is_built(),
            size >= 1,
            Self::valid_align(align),
        ensures
            final(self).wf(),
            final(self).is_built(),
            Self::same_heap_frame(*old(self), *final(self)),
            final(self).spec_data() == old(self).spec_data(),
            r == 0 ==> *final(self) == *old(self),
            r == 0 ==> forall|m: int|
                0 <= m < old(self).runs().len() ==> !old(self).fits_at(
                    m,
                    old(self).spec_ncells_up(size as int),
                    align as int,
                ),
            r != 0 ==> Self::alloc_success(*old(self), *final(self), r, size, align),
            r != 0 ==> (r as int) % (align as int) == 0,
            r != 0 ==> final(self).is_live(r, size),
            r != 0 ==> old(self).spec_base() < r
                && r <= old(self).spec_base() + old(self).spec_ncells()
                * old(self).spec_cell_size(),
    {
        let ghost h0 = *old(self);
        let ghost b = h0.bounds@;
        let ghost len = b.len() as int;
        let ghost req_g = h0.spec_ncells_up(size as int);
        let ghost p0 = h0.cursor_pos();
        proof {
            assert(exists|m: int| 0 <= m < b.len() && #[trigger] b[m] == h0.search_start);
            assert(0 <= p0 < len && b[p0] == h0.search_start);
            Self::lemma_sorted_all(b);
        }

        let req_ncells = self.ncells_up(size);
        proof {
            let csi = h0.spec_cell_size();
            assert((size as int + csi - 1) / csi >= 1) by (nonlinear_arith)
                requires csi >= 1 && size >= 1;
        }
        let search_start = self.search_start;
        let mut cur_i = search_start;
        let ghost mut m: int = 0;

        loop
            invariant
                h0 == *old(self),
                *self == h0,
                self.wf(),
                self.is_built(),
                size >= 1,
                Self::valid_align(align),
                req_ncells == req_g,
                req_g == h0.spec_ncells_up(size as int),
                req_g >= 1,
                b == h0.bounds@,
                len == b.len() as int,
                p0 == h0.cursor_pos(),
                0 <= p0 < len,
                b[p0] == search_start,
                search_start == h0.search_start,
                0 <= m < len,
                cur_i == b[Self::scan_idx(p0, m, len)],
                forall|t: int|
                    0 <= t < m ==> !h0.fits_at(Self::scan_idx(p0, t, len), req_g, align as int),
                forall|i: int, j: int| 0 <= i < j < b.len() ==> b[i] < b[j],
            decreases len - m,
        {
            let ghost km = Self::scan_idx(p0, m, len);
            proof {
                assert(0 <= km < len);
                assert(b[km] < self.ncells);
            }
            let link = self.cells[cur_i].next;
            match link {
                HeapLink::Used(nxt_i) => {
                    // An in-use run: skip to the next management cell.
                    proof {
                        assert(km < len - 1) by {
                            if km == len - 1 {
                                assert(self.cells@[b[len - 1] as int].next == HeapLink::End);
                            }
                        }
                        assert(Self::cells_connect(self.cells@, b[km], b[km + 1]));
                        assert(b[km + 1] == nxt_i);
                        assert(!h0.fits_at(km, req_g, align as int));
                    }
                    cur_i = nxt_i;
                    proof {
                        m = m + 1;
                        if m < len {
                            assert(cur_i == b[Self::scan_idx(p0, m, len)]);
                        }
                    }
                },
                HeapLink::Free(nxt_i) => {
                    // A free run: try an aligned placement inside it.
                    proof {
                        assert(km < len - 1) by {
                            if km == len - 1 {
                                assert(self.cells@[b[len - 1] as int].next == HeapLink::End);
                            }
                        }
                        assert(Self::cells_connect(self.cells@, b[km], b[km + 1]));
                        assert(b[km + 1] == nxt_i);
                    }
                    let bgn_i = self.align_cell(cur_i, align);
                    proof {
                        assert(h0.runs()[km].start == cur_i as int);
                        assert(h0.runs()[km].end == nxt_i as int);
                    }
                    if bgn_i + 1 <= nxt_i && req_ncells <= nxt_i - bgn_i - 1 {
                        // First fit found: claim the aligned cells.
                        let end_i = bgn_i + req_ncells + 1;
                        proof {
                            assert(h0.fits_at(km, req_g, align as int));
                        }
                        self.alloc_cells(Ghost(km), cur_i, bgn_i, end_i, nxt_i);
                        proof {
                            assert((bgn_i + 1) * self.spec_cell_size() <= self.ncells
                                * self.spec_cell_size()) by (nonlinear_arith)
                                requires
                                    self.spec_cell_size() >= 1,
                                    0 <= bgn_i + 1 <= self.ncells as int;
                            assert((bgn_i + 1) * self.spec_cell_size() >= 1) by (nonlinear_arith)
                                requires self.spec_cell_size() >= 1 && bgn_i + 1 >= 1;
                        }
                        let cs = self.heapcell_size();
                        let r = self.base + (bgn_i + 1) * cs;
                        proof {
                            let g: int = if bgn_i > cur_i { 1int } else { 0int };
                            assert(final(self).runs()[km + g] == HeapRun {
                                free: false,
                                start: bgn_i as int,
                                end: end_i as int,
                            });
                            assert(final(self).live_at(km + g, r, size));
                            assert(Self::alloc_success_at(h0, *self, r, size, align, m));
                        }
                        return r;
                    } else {
                        // Too small once aligned: move on.
                        proof {
                            assert(!h0.fits_at(km, req_g, align as int));
                        }
                        cur_i = nxt_i;
                        proof {
                            m = m + 1;
                            if m < len {
                                assert(cur_i == b[Self::scan_idx(p0, m, len)]);
                            }
                        }
                    }
                },
                HeapLink::End => {
                    // The terminal free run: it always keeps one closing
                    // management cell.
                    proof {
                        assert(km == len - 1) by {
                            if km < len - 1 {
                                assert(Self::cells_connect(self.cells@, b[km], b[km + 1]));
                            }
                        }
                    }
                    let nxt_i = self.ncells;
                    let bgn_i = self.align_cell(cur_i, align);
                    proof {
                        assert(h0.runs()[km].start == cur_i as int);
                        assert(h0.runs()[km].end == nxt_i as int);
                    }
                    if bgn_i + 2 <= nxt_i && req_ncells <= nxt_i - bgn_i - 2 {
                        let end_i = bgn_i + req_ncells + 1;
                        proof {
                            assert(h0.fits_at(km, req_g, align as int));
                        }
                        self.alloc_cells(Ghost(km), cur_i, bgn_i, end_i, nxt_i);
                        proof {
                            assert((bgn_i + 1) * self.spec_cell_size() <= self.ncells
                                * self.spec_cell_size()) by (nonlinear_arith)
                                requires
                                    self.spec_cell_size() >= 1,
                                    0 <= bgn_i + 1 <= self.ncells as int;
                            assert((bgn_i + 1) * self.spec_cell_size() >= 1) by (nonlinear_arith)
                                requires self.spec_cell_size() >= 1 && bgn_i + 1 >= 1;
                        }
                        let cs = self.heapcell_size();
                        let r = self.base + (bgn_i + 1) * cs;
                        proof {
                            let g: int = if bgn_i > cur_i { 1int } else { 0int };
                            assert(final(self).runs()[km + g] == HeapRun {
                                free: false,
                                start: bgn_i as int,
                                end: end_i as int,
                            });
                            assert(final(self).live_at(km + g, r, size));
                            assert(Self::alloc_success_at(h0, *self, r, size, align, m));
                        }
                        return r;
                    } else {
                        proof {
                            assert(!h0.fits_at(km, req_g, align as int));
                        }
                        cur_i = 0;
                        proof {
                            m = m + 1;
                            assert(b[0] == 0usize);
                            if m < len {
                                assert(Self::scan_idx(p0, m, len) == 0) by {
                                    if p0 + m - 1 < len {
                                        assert(p0 + m - 1 == len - 1);
                                    } else {
                                        assert(p0 + m - 1 - len == len - 1);
                                        assert(false);
                                    }
                                }
                            }
                        }
                    }
                },
            }

            if cur_i == search_start {
                // The scan is back at its starting run: nothing fits.
                proof {
                    if m < len {
                        let q = Self::scan_idx(p0, m, len);
                        assert(b[q] == b[p0]);
                        if q != p0 {
                            if q < p0 {
                                assert(b[q] < b[p0]);
                            } else {
                                assert(b[p0] < b[q]);
                            }
                        }
                        assert(q == p0);
                        assert(m == 0 || m == len);
                        assert(false);
                    }
                    assert(m == len);
                    assert forall|j: int| 0 <= j < len implies !h0.fits_at(
                        j,
                        req_g,
                        align as int,
                    ) by {
                        let t: int = if j >= p0 {
                            j - p0
                        } else {
                            j - p0 + len
                        };
                        assert(0 <= t < len);
                        assert(Self::scan_idx(p0, t, len) == j);
                        assert(!h0.fits_at(Self::scan_idx(p0, t, len), req_g, align as int));
                    }
                }
                return 0;
            }
            proof {
                if m == len {
                    // Only the starting run can be reached after a full
                    // cycle, and that returns above.
                    let q_prev = Self::scan_idx(p0, m - 1, len);
                    assert(false) by {
                        if q_prev < len - 1 {
                            assert(cur_i == b[q_prev + 1]);
                            assert(p0 + m - 1 >= len ==> q_prev + 1 == p0);
                            assert(p0 + m - 1 < len ==> p0 == 0 && q_prev + 1 == len);
                            if p0 + m - 1 < len {
                                assert(q_prev == len - 1);
                            } else {
                                assert(cur_i == b[p0]);
                            }
                        } else {
                            assert(cur_i == 0 && b[0] == 0usize);
                            assert(p0 + m - 1 < len ==> p0 == 0);
                            assert(p0 + m - 1 >= len ==> q_prev == p0 - 1);
                            if p0 + m - 1 >= len {
                                assert(q_prev == len - 1 && p0 == len);
                            } else {
                                assert(cur_i == b[p0]);
                            }
                        }
                    }
                }
            }
        }
    }

    /// Attempts to allocate `size` bytes aligned to `align`.  A request
    /// of size zero returns the alignment itself as a sentinel address
    /// without touching the cell array.  Exhaustion returns zero and
    /// leaves the heap unchanged.  The first call lays out the cell
    /// array if that has not happened yet.
    pub fn allocate(&mut self, size: usize, align: usize) -> (r: usize)
        requires
            old(self).wf(),
            old(self).has_region(),
            Self::valid_align(align),
        ensures
            final(self).wf(),
            final(self).is_built(),
            final(self).has_region(),
            Self::alloc_call_post(*old(self), *final(self), r, size, align),
    {
        if self.base == 0 {
            // The region was declared but the cell array is not laid
            // out yet: build it now.
            self.build_heap();
        }
        if size == 0 {
            // A zero-size allocation returns a small well-aligned
            // sentinel: the alignment itself.
            align
        } else {
            let r = self.do_alloc(size, align);
            r
        }
    }

    /// The contract of [`MuHeap::allocate`], stated against the built heap
    /// the call worked on: either the heap was already built, or the
    /// call built it first.
    pub open spec fn alloc_call_post(
        pre: MuHeap,
        post: MuHeap,
        r: usize,
        size: usize,
        align: usize,
    ) -> bool {
        if pre.is_built() {
            Self::alloc_core_post(pre, post, r, size, align)
        } else {
            exists|built: MuHeap|
                {
                    &&& #[trigger] built.fresh_view(
                        pre.spec_width(),
                        pre.spec_given().0,
                        pre.spec_given().1,
                    )
                    &&& built.spec_given() == pre.spec_given()
                    &&& Self::alloc_core_post(built, post, r, size, align)
                }
        }
    }

    /// The contract of one allocation against a built heap: a zero-size
    /// request returns the alignment sentinel and changes nothing; a
    /// failed request returns zero and changes nothing; a successful
    /// request returns an aligned address inside the heap, placed
    /// first-fit, and the view is respliced around the new used run.
    pub open spec fn alloc_core_post(
        pre: MuHeap,
        post: MuHeap,
        r: usize,
        size: usize,
        align: usize,
    ) -> bool {
        &&& Self::same_heap_frame(pre, post)
        &&& post.spec_data() == pre.spec_data()
        &&& (size == 0 ==> r == align && post == pre)
        &&& (size > 0 && r == 0 ==> post == pre && (forall|m: int|
            0 <= m < pre.runs().len() ==> !pre.fits_at(
                m,
                pre.spec_ncells_up(size as int),
                align as int,
            )))
        &&& (size > 0 && r != 0 ==> {
            &&& Self::alloc_success(pre, post, r, size, align)
            &&& (r as int) % (align as int) == 0
            &&& post.is_live(r, size)
            &&& pre.spec_base() < r <= pre.spec_base() + pre.spec_ncells() * pre.spec_cell_size()
        })
    }

    /// Where the scan cursor stands after the used run at position `j`
    /// is freed: it is pulled back to the merged run's start when it
    /// stood inside the merged span, and stays put otherwise.
    pub open spec fn dealloc_cursor(rs: Seq<HeapRun>, j: int, ss: int) -> int {
        let lo: int = if j > 0 && rs[j - 1].free { j - 1 } else { j };
        let hi: int = if j < rs.len() - 1 && rs[j + 1].free { j + 1 } else { j };
        if ss > rs[lo].start && (hi == rs.len() - 1 || ss <= rs[hi].end) {
            rs[lo].start
        } else {
            ss
        }
    }

    /// The relation between a heap and its state after the used run at
    /// position `j` has been freed and coalesced: only the merged run's
    /// head link and the following boundary's back link change, and the
    /// bounds inside the merged span are gone.
    spec fn free_ctx(h0: MuHeap, h1: MuHeap, j: int, cur: usize, nxt: usize, head: usize) -> bool {
        let b0 = h0.bounds@;
        let c0 = h0.cells@;
        let c1 = h1.cells@;
        let lo: int = if head < cur { j - 1 } else { j };
        let hi: int = if c0[nxt as int].next is Used { j } else { j + 1 };
        let d = hi - lo;
        &&& h0.wf_built()
        &&& 0 <= j < b0.len() - 1
        &&& b0[j] == cur
        &&& b0[j + 1] == nxt
        &&& c0[cur as int].next == HeapLink::Used(nxt)
        &&& (if cur > 0 && c0[cur as int].prev is Free {
            &&& j >= 1
            &&& head == b0[j - 1]
        } else {
            head == cur
        })
        &&& h1.width == h0.width
        &&& h1.given_base == h0.given_base
        &&& h1.given_size == h0.given_size
        &&& h1.base == h0.base
        &&& h1.ncells == h0.ncells
        &&& h1.data@ == h0.data@
        &&& c1.len() == c0.len()
        &&& c1[head as int].prev == c0[head as int].prev
        &&& (c0[nxt as int].next matches HeapLink::Used(u) ==> {
            &&& c1[head as int].next == HeapLink::Free(nxt)
            &&& c1[nxt as int].prev == HeapLink::Free(head)
            &&& c1[nxt as int].next == c0[nxt as int].next
            &&& (forall|i: int|
                0 <= i < c1.len() && i != head && i != nxt ==> c1[i] == #[trigger] c0[i])
        })
        &&& (c0[nxt as int].next matches HeapLink::Free(t) ==> {
            &&& c1[head as int].next == HeapLink::Free(t)
            &&& c1[t as int].prev == HeapLink::Free(head)
            &&& c1[t as int].next == c0[t as int].next
            &&& (forall|i: int|
                0 <= i < c1.len() && i != head && i != t ==> c1[i] == #[trigger] c0[i])
        })
        &&& (c0[nxt as int].next is End ==> {
            &&& c1[head as int].next == HeapLink::End
            &&& (forall|i: int| 0 <= i < c1.len() && i != head ==> c1[i] == #[trigger] c0[i])
        })
        &&& h1.bounds@ == Seq::new(
            (b0.len() - d) as nat,
            |i: int| if i <= lo { b0[i] } else { b0[i + d] },
        )
        &&& h1.search_start == Self::dealloc_cursor(h0.runs(), j, h0.search_start as int)
    }

    /// Facts shared by the coalescing proofs: where the merged span's
    /// neighbours sit and what their links are.
    #[verifier::rlimit(100)]
    proof fn lemma_free_cells_shape(
        h0: MuHeap,
        h1: MuHeap,
        j: int,
        cur: usize,
        nxt: usize,
        head: usize,
    )
        requires
            Self::free_ctx(h0, h1, j, cur, nxt, head),
        ensures
            forall|i1: int, j1: int|
                0 <= i1 < j1 < h0.bounds@.len() ==> h0.bounds@[i1] < h0.bounds@[j1],
            forall|i1: int, j1: int|
                0 <= i1 < j1 < h1.bounds@.len() ==> h1.bounds@[i1] < h1.bounds@[j1],
            head < cur ==> h0.cells@[head as int].next == HeapLink::Free(cur)
                && !(h0.cells@[head as int].prev is Free) && h0.runs()[j - 1].free,
            head == cur ==> (j >= 1 ==> h0.cells@[h0.bounds@[j - 1] as int].next is Used),
            h0.cells@[nxt as int].next matches HeapLink::Free(t) ==> j + 2 < h0.bounds@.len()
                && h0.bounds@[j + 2] == t && h0.cells@[t as int].next is Used,
            h0.cells@[nxt as int].next is End ==> j + 1 == h0.bounds@.len() - 1,
            h0.cells@[nxt as int].next is Used ==> j + 1 < h0.bounds@.len() - 1,
            !h0.runs()[j].free,
    {
        let b0 = h0.bounds@;
        let c0 = h0.cells@;
        let b1 = h1.bounds@;
        let lo: int = if head < cur { j - 1 } else { j };
        let hi: int = if c0[nxt as int].next is Used { j } else { j + 1 };
        let d = hi - lo;
        Self::lemma_sorted_all(b0);
        assert forall|i1: int|
            #![trigger b1[i1], b1[i1 + 1]]
            0 <= i1 < b1.len() - 1 implies b1[i1] < b1[i1 + 1] by {
            if i1 > lo {
                assert(b0[i1 + d] < b0[i1 + 1 + d]);
            } else if i1 == lo {
                assert(b1[i1] == b0[lo] && b1[i1 + 1] == b0[lo + 1 + d - d + d]);
                assert(b1[i1 + 1] == b0[lo + 1 + d]);
                assert(b0[lo] < b0[lo + 1 + d]);
            }
        }
        Self::lemma_sorted_all(b1);
        if head < cur {
            assert(j >= 1 && head == b0[j - 1]);
            let q = j - 1;
            assert(Self::cells_connect(c0, b0[q], b0[q + 1]));
            assert(c0[cur as int].prev is Free);
            assert(c0[head as int].next == HeapLink::Free(cur));
            // A free run is never preceded by another free run.
            if j >= 2 {
                let q2 = j - 2;
                assert(Self::cells_connect(c0, b0[q2], b0[q2 + 1]));
                if c0[b0[q2] as int].next is Free {
                    assert(c0[b0[q2 + 1] as int].next is Used);
                }
                assert(!(c0[head as int].prev is Free));
            } else {
                assert(head == b0[0]);
                assert(c0[0].prev == HeapLink::Used(0usize));
            }
        } else {
            if j >= 1 {
                let q = j - 1;
                assert(Self::cells_connect(c0, b0[q], b0[q + 1]));
                if c0[b0[q] as int].next is Free {
                    assert(c0[cur as int].prev is Free);
                    assert(cur > 0) by {
                        assert(b0[0] < b0[j]);
                    }
                }
            }
        }
        if c0[nxt as int].next is Free {
            assert(j + 1 < b0.len() - 1) by {
                if j + 1 == b0.len() - 1 {
                    assert(c0[b0[b0.len() - 1] as int].next == HeapLink::End);
                }
            }
            let q = j + 1;
            assert(Self::cells_connect(c0, b0[q], b0[q + 1]));
            assert(c0[b0[q] as int].next is Free ==> c0[b0[q + 1] as int].next is Used);
        }
        if c0[nxt as int].next is End {
            assert(j + 1 == b0.len() - 1) by {
                if j + 1 < b0.len() - 1 {
                    let q = j + 1;
                    assert(Self::cells_connect(c0, b0[q], b0[q + 1]));
                }
            }
        }
        if c0[nxt as int].next is Used {
            assert(j + 1 < b0.len() - 1) by {
                if j + 1 == b0.len() - 1 {
                    assert(c0[b0[b0.len() - 1] as int].next == HeapLink::End);
                }
            }
        }
    }

    /// After coalescing, consecutive bounds are connected and the last
    /// bound opens the terminal free run.
    #[verifier::rlimit(100)]
    proof fn lemma_free_cells_connect(
        h0: MuHeap,
        h1: MuHeap,
        j: int,
        cur: usize,
        nxt: usize,
        head: usize,
    )
        requires
            Self::free_ctx(h0, h1, j, cur, nxt, head),
        ensures
            forall|m: int|
                #![trigger h1.bounds@[m], h1.bounds@[m + 1]]
                0 <= m < h1.bounds@.len() - 1 ==> Self::cells_connect(
                    h1.cells@,
                    h1.bounds@[m],
                    h1.bounds@[m + 1],
                ),
            h1.cells@[h1.bounds@[h1.bounds@.len() - 1] as int].next == HeapLink::End,
    {
        let b0 = h0.bounds@;
        let c0 = h0.cells@;
        let b1 = h1.bounds@;
        let c1 = h1.cells@;
        let lo: int = if head < cur { j - 1 } else { j };
        let hi: int = if c0[nxt as int].next is Used { j } else { j + 1 };
        let d = hi - lo;
        let n = b0.len() as int;
        Self::lemma_free_cells_shape(h0, h1, j, cur, nxt, head);
        assert forall|m: int| 0 <= m < b1.len() - 1 implies Self::cells_connect(
            c1,
            #[trigger] b1[m],
            b1[m + 1],
        ) by {
            if m < lo - 1 {
                assert(b1[m] == b0[m] && b1[m + 1] == b0[m + 1]);
                assert(Self::cells_connect(c0, b0[m], b0[m + 1]));
                assert(b0[m] < head && b0[m + 1] <= head);
                assert(c1[b0[m] as int] == c0[b0[m] as int]);
                assert(c1[b0[m + 1] as int] == c0[b0[m + 1] as int]);
            } else if m == lo - 1 {
                assert(b1[m] == b0[m] && b1[m + 1] == b0[lo]);
                assert(b1[m + 1] == head);
                assert(m + 1 == lo);
                assert(Self::cells_connect(c0, b0[m], b0[m + 1]));
                assert(c1[b0[m] as int] == c0[b0[m] as int]);
                assert(c1[head as int].prev == c0[head as int].prev);
                // The run before the merged head is in use, so its tag
                // is Used on both sides.
                assert(c0[b0[m] as int].next is Used) by {
                    if c0[b0[m] as int].next is Free {
                        assert(c0[b0[lo] as int].next is Used);
                        if head < cur {
                            assert(c0[head as int].next == HeapLink::Free(cur));
                        }
                    }
                }
            } else if m == lo {
                assert(b1[m] == head);
                assert(b1[m + 1] == b0[lo + 1 + d]);
                if c0[nxt as int].next is Used {
                    assert(lo + 1 + d == j + 1);
                    assert(b1[m + 1] == nxt);
                    assert(c1[head as int].next == HeapLink::Free(nxt));
                    assert(c1[nxt as int].prev == HeapLink::Free(head));
                } else if c0[nxt as int].next is Free {
                    let t = c0[nxt as int].next->Free_0;
                    assert(lo + 1 + d == j + 2);
                    assert(b1[m + 1] == b0[j + 2] && b0[j + 2] == t);
                    assert(c1[head as int].next == HeapLink::Free(t));
                    assert(c1[t as int].prev == HeapLink::Free(head));
                } else {
                    // Terminal merge: the merged run is the last one.
                    assert(hi == j + 1 && j + 1 == n - 1);
                    assert(b1.len() - 1 == lo);
                    assert(false);
                }
            } else {
                let q = m + d;
                assert(b1[m] == b0[q] && b1[m + 1] == b0[q + 1]);
                assert(q >= hi + 1);
                assert(Self::cells_connect(c0, b0[q], b0[q + 1]));
                assert(b0[q] >= b0[hi + 1] && b0[q + 1] > b0[hi + 1]);
                if c0[nxt as int].next is Used {
                    assert(b0[hi + 1] == nxt);
                    if q == hi + 1 {
                        assert(b0[q] == nxt);
                        assert(c1[nxt as int].next == c0[nxt as int].next);
                        assert(c1[b0[q + 1] as int] == c0[b0[q + 1] as int]);
                    } else {
                        assert(b0[q] > nxt && b0[q + 1] > nxt);
                        assert(c1[b0[q] as int] == c0[b0[q] as int]);
                        assert(c1[b0[q + 1] as int] == c0[b0[q + 1] as int]);
                    }
                } else {
                    let t = c0[nxt as int].next->Free_0;
                    assert(b0[hi + 1] == t);
                    if q == hi + 1 {
                        assert(b0[q] == t);
                        assert(c1[t as int].next == c0[t as int].next);
                        assert(c1[b0[q + 1] as int] == c0[b0[q + 1] as int]);
                    } else {
                        assert(b0[q] > t && b0[q + 1] > t);
                        assert(c1[b0[q] as int] == c0[b0[q] as int]);
                        assert(c1[b0[q + 1] as int] == c0[b0[q + 1] as int]);
                    }
                }
            }
        }
        assert(c1[b1[b1.len() - 1] as int].next == HeapLink::End) by {
            if c0[nxt as int].next is End {
                assert(b1.len() - 1 == lo);
                assert(c1[head as int].next == HeapLink::End);
            } else {
                assert(b1[b1.len() - 1] == b0[n - 1]);
                assert(n - 1 >= hi + 1);
                if b0[n - 1] == nxt || (c0[nxt as int].next matches HeapLink::Free(t) && b0[n
                    - 1] == t) {
                    assert(c1[b0[n - 1] as int].next == c0[b0[n - 1] as int].next);
                } else {
                    assert(c1[b0[n - 1] as int] == c0[b0[n - 1] as int]);
                }
            }
        }
    }

    /// After coalescing, the chain invariant holds again.
    #[verifier::rlimit(100)]
    proof fn lemma_free_cells_wf(
        h0: MuHeap,
        h1: MuHeap,
        j: int,
        cur: usize,
        nxt: usize,
        head: usize,
    )
        requires
            Self::free_ctx(h0, h1, j, cur, nxt, head),
        ensures
            h1.wf_built(),
    {
        Self::lemma_free_cells_shape(h0, h1, j, cur, nxt, head);
        Self::lemma_free_cells_connect(h0, h1, j, cur, nxt, head);
        Self::lemma_free_cells_wf_tags(h0, h1, j, cur, nxt, head);
    }

    /// After coalescing: run tags and the cursor are in order.
    #[verifier::rlimit(100)]
    proof fn lemma_free_cells_wf_tags(
        h0: MuHeap,
        h1: MuHeap,
        j: int,
        cur: usize,
        nxt: usize,
        head: usize,
    )
        requires
            Self::free_ctx(h0, h1, j, cur, nxt, head),
        ensures
            forall|m: int|
                #![trigger h1.bounds@[m], h1.bounds@[m + 1]]
                0 <= m < h1.bounds@.len() - 1 && h1.cells@[h1.bounds@[m] as int].next is Free
                    ==> h1.cells@[h1.bounds@[m + 1] as int].next is Used,
            forall|m: int|
                #![trigger h1.bounds@[m], h1.bounds@[m + 1]]
                0 <= m < h1.bounds@.len() - 1 && h1.cells@[h1.bounds@[m] as int].next is Used
                    ==> h1.bounds@[m] + 2 <= h1.bounds@[m + 1],
            h1.cells@[0].prev == HeapLink::Used(0usize),
            exists|m: int|
                0 <= m < h1.bounds@.len() && #[trigger] h1.bounds@[m] == h1.search_start,
    {
        let b0 = h0.bounds@;
        let c0 = h0.cells@;
        let b1 = h1.bounds@;
        let c1 = h1.cells@;
        let lo: int = if head < cur { j - 1 } else { j };
        let hi: int = if c0[nxt as int].next is Used { j } else { j + 1 };
        let d = hi - lo;
        let n = b0.len() as int;
        Self::lemma_free_cells_shape(h0, h1, j, cur, nxt, head);
        assert forall|m: int|
            #![trigger b1[m], b1[m + 1]]
            0 <= m < b1.len() - 1 && c1[b1[m] as int].next is Free implies c1[b1[m
            + 1] as int].next is Used by {
            if m < lo - 1 || m == lo - 1 {
                assert(b1[m] == b0[m]);
                assert(c1[b0[m] as int] == c0[b0[m] as int]);
                if c0[b0[m] as int].next is Free {
                    assert(c0[b0[m + 1] as int].next is Used);
                    if m == lo - 1 {
                        // The run before the merged head is in use.
                        assert(b0[m + 1] == b0[lo] && b0[lo] == head);
                        if head < cur {
                            assert(c0[head as int].next == HeapLink::Free(cur));
                            assert(false);
                        } else {
                            assert(c0[head as int].next == HeapLink::Used(nxt));
                            assert(false);
                        }
                    } else {
                        assert(b1[m + 1] == b0[m + 1]);
                        assert(b0[m + 1] < b0[lo]);
                        assert(c1[b0[m + 1] as int] == c0[b0[m + 1] as int]);
                    }
                }
            } else if m == lo {
                // The merged free run is followed by a used run.
                if c0[nxt as int].next is Used {
                    assert(b1[m + 1] == nxt);
                    assert(c1[nxt as int].next == c0[nxt as int].next);
                } else if c0[nxt as int].next is Free {
                    let t = c0[nxt as int].next->Free_0;
                    assert(b1[m + 1] == b0[j + 2] && b0[j + 2] == t);
                    assert(c0[t as int].next is Used);
                    assert(c1[t as int].next == c0[t as int].next);
                } else {
                    assert(b1.len() - 1 == lo);
                    assert(false);
                }
            } else {
                let q = m + d;
                assert(b1[m] == b0[q] && b1[m + 1] == b0[q + 1]);
                assert(q >= hi + 1);
                assert(c0[b0[q] as int].next is Free ==> c0[b0[q + 1] as int].next is Used);
                assert(c1[b0[q] as int].next == c0[b0[q] as int].next) by {
                    if b0[q] != head && b0[q] != nxt && !(c0[nxt as int].next matches HeapLink::Free(t)
                        && b0[q] == t) {
                        assert(c1[b0[q] as int] == c0[b0[q] as int]);
                    }
                    assert(b0[q] > b0[j]);
                }
                assert(c1[b0[q + 1] as int].next == c0[b0[q + 1] as int].next) by {
                    assert(b0[q + 1] > b0[hi + 1]);
                }
            }
        }
        assert forall|m: int|
            #![trigger b1[m], b1[m + 1]]
            0 <= m < b1.len() - 1 && c1[b1[m] as int].next is Used implies b1[m] + 2 <= b1[m
            + 1] by {
            if m < lo {
                assert(b1[m] == b0[m] && b1[m + 1] == b0[m + 1]);
                assert(c1[b0[m] as int] == c0[b0[m] as int]);
            } else if m == lo {
                assert(c1[head as int].next is Free || c1[head as int].next is End);
            } else {
                let q = m + d;
                assert(b1[m] == b0[q] && b1[m + 1] == b0[q + 1]);
                assert(q >= hi + 1);
                assert(c1[b0[q] as int].next == c0[b0[q] as int].next) by {
                    assert(b0[q] > b0[j]);
                    if b0[q] != nxt && !(c0[nxt as int].next matches HeapLink::Free(t) && b0[q]
                        == t) {
                        assert(c1[b0[q] as int] == c0[b0[q] as int]);
                    }
                }
            }
        }
        assert(c1[0].prev == HeapLink::Used(0usize)) by {
            if head == 0 {
                assert(c1[head as int].prev == c0[head as int].prev);
            } else {
                assert(b0[0] == 0usize && b0[0] < b0[j + 1]);
                if c0[nxt as int].next is Free {
                    let t = c0[nxt as int].next->Free_0;
                    assert(0 != t as int) by {
                        assert(b0[0] < b0[j + 2]);
                    }
                }
                assert(c1[0] == c0[0]);
            }
        }
        assert(exists|m: int| 0 <= m < b1.len() && #[trigger] b1[m] == h1.search_start) by {
            let rs0 = h0.runs();
            let ss = h0.search_start as int;
            assert(rs0[lo].start == b0[lo] as int);
            if h1.search_start == head {
                assert(b1[lo] == head);
            } else {
                assert(h1.search_start == h0.search_start);
                let p = choose|p: int|
                    0 <= p < b0.len() && #[trigger] b0[p] == h0.search_start;
                assert(b0[p] == h0.search_start);
                if p <= lo {
                    assert(b1[p] == b0[p]);
                } else {
                    // The cursor was not inside the merged span, so its
                    // cell lies beyond the merged run's end.
                    assert(ss > b0[lo] as int);
                    if hi == n - 1 {
                        assert(c0[nxt as int].next is End || c0[nxt as int].next is Free);
                        assert(c0[b0[n - 1] as int].next == HeapLink::End);
                        assert(hi == j + 1);
                        assert(Self::dealloc_cursor(rs0, j, ss) == rs0[lo].start);
                        assert(false);
                    }
                    assert(ss > rs0[hi].end);
                    assert(rs0[hi].end == b0[hi + 1] as int);
                    assert(p >= hi + 1) by {
                        if p < hi + 1 {
                            assert(b0[p] <= b0[hi + 1]);
                        }
                    }
                    assert(b1[p - d] == b0[p]);
                    assert(0 <= p - d < b1.len());
                }
            }
        }
    }

    /// After coalescing, the run view is exactly the merge described by
    /// [`MuHeap::dealloc_merge`].
    #[verifier::rlimit(100)]
    proof fn lemma_free_cells_runs(
        h0: MuHeap,
        h1: MuHeap,
        j: int,
        cur: usize,
        nxt: usize,
        head: usize,
    )
        requires
            Self::free_ctx(h0, h1, j, cur, nxt, head),
        ensures
            h1.runs() == Self::dealloc_merge(h0.runs(), j),
    {
        let b0 = h0.bounds@;
        let c0 = h0.cells@;
        let b1 = h1.bounds@;
        let c1 = h1.cells@;
        let lo: int = if head < cur { j - 1 } else { j };
        let hi: int = if c0[nxt as int].next is Used { j } else { j + 1 };
        let d = hi - lo;
        let n = b0.len() as int;
        Self::lemma_free_cells_shape(h0, h1, j, cur, nxt, head);
        let rs0 = h0.runs();
        let rs1 = h1.runs();
        let mg = Self::dealloc_merge(rs0, j);
        assert(rs0[j].free == false);
        assert((j > 0 && rs0[j - 1].free) <==> head < cur) by {
            if j > 0 {
                assert(Self::cells_connect(c0, b0[j - 1], b0[j]));
            }
        }
        assert((j < rs0.len() - 1 && rs0[j + 1].free) <==> !(c0[nxt as int].next is Used)) by {
            if j + 1 == n - 1 {
                assert(c0[b0[n - 1] as int].next == HeapLink::End);
            }
        }
        assert(rs1.len() == mg.len());
        assert forall|i: int| 0 <= i < rs1.len() implies rs1[i] == mg[i] by {
            if i < lo {
                assert(b1[i] == b0[i] && b1[i + 1] == b0[i + 1]);
                assert(c1[b0[i] as int] == c0[b0[i] as int]);
                assert(mg[i] == rs0[i]);
            } else if i == lo {
                assert(b1[i] == head);
                assert(c1[head as int].next is Free || c1[head as int].next is End);
                assert(mg[i] == HeapRun { free: true, start: rs0[lo].start, end: rs0[hi].end });
                if i == rs1.len() - 1 {
                    assert(c0[nxt as int].next is End);
                    assert(hi == n - 1);
                    assert(rs0[hi].end == h0.ncells as int);
                } else {
                    assert(b1[i + 1] == b0[i + 1 + d]);
                    assert(hi < n - 1);
                    assert(rs0[hi].end == b0[hi + 1] as int);
                }
            } else {
                let q = i + d;
                assert(b1[i] == b0[q]);
                assert(q >= hi + 1);
                assert(mg[i] == rs0[q]);
                assert(c1[b0[q] as int].next == c0[b0[q] as int].next) by {
                    assert(b0[q] > b0[j]);
                    if b0[q] != nxt && !(c0[nxt as int].next matches HeapLink::Free(t) && b0[q]
                        == t) {
                        assert(c1[b0[q] as int] == c0[b0[q] as int]);
                    }
                }
                if i == rs1.len() - 1 {
                    assert(q == n - 1);
                } else {
                    assert(b1[i + 1] == b0[q + 1]);
                }
            }
        }
        assert(rs1 =~= mg);
    }

    /// Frees the used run whose management cell is `cur_i` and whose
    /// closing cell is `nxt_i`, merging it with the free runs
    /// immediately before and after it.  The scan cursor is pulled back
    /// to the merged run's start when it stood inside the merged span.
    fn free_cells(&mut self, Ghost(j): Ghost<int>, cur_i: usize, nxt_i: usize)
        requires
            old(self).wf(),
            old(self).is_built(),
            0 <= j < old(self).bounds@.len() - 1,
            old(self).bounds@[j] == cur_i,
            old(self).cells@[cur_i as int].next == HeapLink::Used(nxt_i),
        ensures
            final(self).wf(),
            final(self).is_built(),
            final(self).runs() == Self::dealloc_merge(old(self).runs(), j),
            final(self).spec_search_start() == Self::dealloc_cursor(
                old(self).runs(),
                j,
                old(self).spec_search_start(),
            ),
            Self::same_heap_frame(*old(self), *final(self)),
            final(self).spec_data() == old(self).spec_data(),
    {
        let ghost h0 = *old(self);
        let ghost b0 = h0.bounds@;
        proof {
            Self::lemma_sorted_all(b0);
            assert(Self::cells_connect(h0.cells@, b0[j], b0[j + 1]));
            assert(b0[j + 1] == nxt_i);
            assert(b0[j + 1] < h0.ncells);
        }

        // Find the head of the merged run: the preceding free run's
        // management cell, if the preceding run is free.
        let mut head = cur_i;
        if cur_i > 0 {
            match self.cells[cur_i].prev {
                HeapLink::Free(p) => {
                    proof {
                        assert(j >= 1) by {
                            assert(b0[0] == 0usize);
                            if j == 0 {
                                assert(h0.cells@[0].prev == HeapLink::Used(0usize));
                            }
                        }
                        let q = j - 1;
                        assert(Self::cells_connect(h0.cells@, b0[q], b0[q + 1]));
                        assert(p == b0[q]);
                        assert(b0[q] < h0.ncells);
                    }
                    head = p;
                },
                _ => {},
            }
        }

        let ghost rs0 = h0.runs();
        let ghost ss0 = h0.search_start as int;

        // Merge with the following run and close the merged run.
        let following = self.cells[nxt_i].next;
        match following {
            HeapLink::Used(_) => {
                let ch = self.cells[head];
                self.cells.set(head, HeapCell { prev: ch.prev, next: HeapLink::Free(nxt_i) });
                let cn = self.cells[nxt_i];
                self.cells.set(nxt_i, HeapCell { prev: HeapLink::Free(head), next: cn.next });
                if self.search_start > head && self.search_start <= nxt_i {
                    self.search_start = head;
                }
            },
            HeapLink::Free(t) => {
                proof {
                    assert(j + 2 < b0.len()) by {
                        if j + 1 == b0.len() - 1 {
                            assert(h0.cells@[b0[b0.len() - 1] as int].next == HeapLink::End);
                        }
                    }
                    let q = j + 1;
                    assert(Self::cells_connect(h0.cells@, b0[q], b0[q + 1]));
                    assert(t == b0[q + 1]);
                    assert(b0[q + 1] < h0.ncells);
                }
                let ch = self.cells[head];
                self.cells.set(head, HeapCell { prev: ch.prev, next: HeapLink::Free(t) });
                let ct = self.cells[t];
                self.cells.set(t, HeapCell { prev: HeapLink::Free(head), next: ct.next });
                if self.search_start > head && self.search_start <= t {
                    self.search_start = head;
                }
            },
            HeapLink::End => {
                let ch = self.cells[head];
                self.cells.set(head, HeapCell { prev: ch.prev, next: HeapLink::End });
                if self.search_start > head {
                    self.search_start = head;
                }
            },
        }

        let ghost lo: int = if head < cur_i { j - 1 } else { j };
        let ghost hi: int = if h0.cells@[nxt_i as int].next is Used { j } else { j + 1 };
        let ghost d: int = hi - lo;
        let ghost newb: Seq<usize> = Seq::new(
            (b0.len() - d) as nat,
            |i: int| if i <= lo { b0[i] } else { b0[i + d] },
        );
        self.bounds = Ghost(newb);

        proof {
            assert(rs0[lo].start == b0[lo] as int);
            assert(hi < b0.len() - 1 ==> rs0[hi].end == b0[hi + 1] as int);
            assert((j > 0 && rs0[j - 1].free) <==> head < cur_i) by {
                if j > 0 {
                    let q = j - 1;
                    assert(Self::cells_connect(h0.cells@, b0[q], b0[q + 1]));
                    if h0.cells@[b0[q] as int].next is Free {
                        assert(h0.cells@[cur_i as int].prev is Free);
                        assert(cur_i > 0) by {
                            assert(b0[0] < b0[j]);
                        }
                    }
                }
            }
            assert((j < rs0.len() - 1 && rs0[j + 1].free) <==> !(h0.cells@[nxt_i as int].next
                is Used)) by {
                if j + 1 == b0.len() - 1 {
                    assert(h0.cells@[b0[b0.len() - 1] as int].next == HeapLink::End);
                }
            }
            assert(self.search_start as int == Self::dealloc_cursor(rs0, j, ss0)) by {
                if h0.cells@[nxt_i as int].next is End {
                    assert(hi == j + 1 && j + 1 == b0.len() - 1) by {
                        if j + 1 < b0.len() - 1 {
                            let q = j + 1;
                            assert(Self::cells_connect(h0.cells@, b0[q], b0[q + 1]));
                        }
                    }
                } else if h0.cells@[nxt_i as int].next is Used {
                    assert(hi == j && j < rs0.len() - 1);
                    assert(rs0[hi].end == b0[j + 1] as int);
                    assert(hi != rs0.len() - 1);
                } else {
                    let t = h0.cells@[nxt_i as int].next->Free_0;
                    assert(hi == j + 1 && j + 2 < b0.len());
                    assert(rs0[hi].end == b0[j + 2] as int && b0[j + 2] == t);
                    assert(hi != rs0.len() - 1);
                }
            }
            assert(Self::free_ctx(h0, *self, j, cur_i, nxt_i, head));
            Self::lemma_free_cells_wf(h0, *self, j, cur_i, nxt_i, head);
            Self::lemma_free_cells_runs(h0, *self, j, cur_i, nxt_i, head);
        }
    }

    /// The contract of freeing one live allocation: the used run at the
    /// pointer becomes free, coalesced with its free neighbours, and
    /// the cursor is pulled back when it stood in the merged span.
    pub open spec fn dealloc_core_post(pre: MuHeap, post: MuHeap, ptr: usize, size: usize) -> bool {
        &&& Self::same_heap_frame(pre, post)
        &&& post.spec_data() == pre.spec_data()
        &&& (exists|j: int|
            {
                &&& #[trigger] pre.live_at(j, ptr, size)
                &&& post.runs() == Self::dealloc_merge(pre.runs(), j)
                &&& post.spec_search_start() == Self::dealloc_cursor(
                    pre.runs(),
                    j,
                    pre.spec_search_start(),
                )
            })
    }

    /// Finds the run of a live allocation: the bounds index whose run
    /// starts at the pointer's management cell.
    fn ptr_to_run(&self, ptr: usize, size: usize) -> (r: (usize, usize, Ghost<int>))
        requires
            self.wf(),
            self.is_built(),
            self.is_live(ptr, size),
        ensures
            ({
                let (cur_i, nxt_i, j) = r;
                &&& self.live_at(j@, ptr, size)
                &&& 0 <= j@ < self.bounds@.len() - 1
                &&& self.bounds@[j@] == cur_i
                &&& self.cells@[cur_i as int].next == HeapLink::Used(nxt_i)
                &&& cur_i as int == self.runs()[j@].start
                &&& nxt_i as int == self.runs()[j@].end
            }),
    {
        let ghost j = choose|j: int| self.live_at(j, ptr, size);
        let ghost b = self.bounds@;
        proof {
            Self::lemma_sorted_all(b);
            assert(self.live_at(j, ptr, size));
            let start = self.runs()[j].start;
            let cs = self.spec_cell_size();
            assert(j < b.len() - 1) by {
                if j == b.len() - 1 {
                    assert(self.cells@[b[b.len() - 1] as int].next == HeapLink::End);
                }
            }
            assert(Self::cells_connect(self.cells@, b[j], b[j + 1]));
            assert(self.cells@[b[j] as int].next is Used) by {
                if self.cells@[b[j] as int].next is Free {
                    assert(self.runs()[j].free);
                }
            }
            assert(self.cells@[b[j] as int].next == HeapLink::Used(b[j + 1]));
            // The pointer determines the management cell.
            vstd::arithmetic::div_mod::lemma_mod_multiples_basic(start + 1, cs);
            assert((start + 1) * cs == ptr - self.spec_base());
            assert((ptr - self.spec_base()) % cs == 0) by {
                assert(((start + 1) * cs) % cs == 0);
            }
            assert((start + 1) * cs >= 1 * cs) by (nonlinear_arith)
                requires start + 1 >= 1 && cs >= 1;
            assert((start + 1) * cs <= self.spec_ncells() * cs) by (nonlinear_arith)
                requires start + 1 <= self.spec_ncells() && cs >= 1;
        }
        let cur_i = self.ptr_to_cell(ptr);
        proof {
            let start = self.runs()[j].start;
            let cs = self.spec_cell_size();
            assert((ptr - self.spec_base()) / cs == start + 1) by (nonlinear_arith)
                requires cs >= 1 && ptr - self.spec_base() == (start + 1) * cs;
            assert(cur_i as int == start);
        }
        let link = self.cells[cur_i].next;
        let nxt_i: usize = match link {
            HeapLink::Used(n) => n,
            _ => {
                proof {
                    assert(false);
                }
                0
            },
        };
        (cur_i, nxt_i, Ghost(j))
    }

    /// Deallocates the block at `ptr`, which must be a live allocation
    /// made for `size` bytes with alignment `align`.  A zero-size
    /// deallocation pairs with the zero-size allocation sentinel and
    /// changes nothing.
    pub fn dealloc(&mut self, ptr: usize, size: usize, align: usize)
        requires
            old(self).wf(),
            old(self).is_built(),
            Self::valid_align(align),
            size == 0 ==> ptr == align,
            size > 0 ==> old(self).is_live(ptr, size) && (ptr as int) % (align as int) == 0,
        ensures
            final(self).wf(),
            final(self).is_built(),
            size == 0 ==> *final(self) == *old(self),
            size > 0 ==> Self::dealloc_core_post(*old(self), *final(self), ptr, size),
    {
        if size == 0 {
            // The sentinel of a zero-size allocation: nothing was
            // allocated, so nothing is freed.
            return ;
        }
        self.do_dealloc(ptr, size, align);
    }

    /// Frees the live allocation at `ptr` and coalesces.
    fn do_dealloc(&mut self, ptr: usize, size: usize, align: usize)
        requires
            old(self).wf(),
            old(self).is_built(),
            size > 0,
            old(self).is_live(ptr, size),
        ensures
            final(self).wf(),
            final(self).is_built(),
            Self::dealloc_core_post(*old(self), *final(self), ptr, size),
    {
        let (cur_i, nxt_i, j) = self.ptr_to_run(ptr, size);
        self.free_cells(j, cur_i, nxt_i);
    }

    /// Where the scan cursor stands after the used run at position `j`
    /// is split at `end`: it moves to the split cell when it stood on
    /// the run or on the free span the freed tail merges into.
    pub open spec fn shrink_cursor(rs: Seq<HeapRun>, j: int, end: int, ss: int) -> int {
        let upper: int = if j + 1 < rs.len() - 1 && rs[j + 1].free {
            rs[j + 1].end
        } else {
            rs[j].end
        };
        if rs[j].start <= ss <= upper {
            end
        } else {
            ss
        }
    }

    /// The bounds list after splitting the run at position `j` at cell
    /// `end`: the split cell is inserted, and the following boundary
    /// disappears when the freed tail merges into a following free run.
    spec fn shrink_bounds(b0: Seq<usize>, j: int, end: usize, m: int) -> Seq<usize> {
        Seq::new(
            (b0.len() + 1 - m) as nat,
            |i: int|
                if i <= j {
                    b0[i]
                } else if i == j + 1 {
                    end
                } else {
                    b0[i - 1 + m]
                },
        )
    }

    /// The relation between a heap and its state after the used run at
    /// position `j` has been split at `end`, with the freed tail
    /// coalesced into what follows.
    spec fn shrink_ctx(
        h0: MuHeap,
        h1: MuHeap,
        j: int,
        cur: usize,
        nxt: usize,
        end: usize,
    ) -> bool {
        let b0 = h0.bounds@;
        let c0 = h0.cells@;
        let c1 = h1.cells@;
        let m: int = if c0[nxt as int].next is Used { 0 } else { 1 };
        &&& h0.wf_built()
        &&& 0 <= j < b0.len() - 1
        &&& b0[j] == cur
        &&& b0[j + 1] == nxt
        &&& c0[cur as int].next == HeapLink::Used(nxt)
        &&& cur + 2 <= end
        &&& end < nxt
        &&& h1.width == h0.width
        &&& h1.given_base == h0.given_base
        &&& h1.given_size == h0.given_size
        &&& h1.base == h0.base
        &&& h1.ncells == h0.ncells
        &&& h1.data@ == h0.data@
        &&& c1.len() == c0.len()
        &&& c1[cur as int].next == HeapLink::Used(end)
        &&& c1[cur as int].prev == c0[cur as int].prev
        &&& c1[end as int].prev == HeapLink::Used(cur)
        &&& (c0[nxt as int].next is Used ==> {
            &&& c1[end as int].next == HeapLink::Free(nxt)
            &&& c1[nxt as int].prev == HeapLink::Free(end)
            &&& c1[nxt as int].next == c0[nxt as int].next
            &&& (forall|i: int|
                0 <= i < c1.len() && i != cur && i != end && i != nxt ==> c1[i] == #[trigger] c0[i])
        })
        &&& (c0[nxt as int].next matches HeapLink::Free(t) ==> {
            &&& c1[end as int].next == HeapLink::Free(t)
            &&& c1[t as int].prev == HeapLink::Free(end)
            &&& c1[t as int].next == c0[t as int].next
            &&& (forall|i: int|
                0 <= i < c1.len() && i != cur && i != end && i != t ==> c1[i] == #[trigger] c0[i])
        })
        &&& (c0[nxt as int].next is End ==> {
            &&& c1[end as int].next == HeapLink::End
            &&& (forall|i: int|
                0 <= i < c1.len() && i != cur && i != end ==> c1[i] == #[trigger] c0[i])
        })
        &&& h1.bounds@ == Self::shrink_bounds(b0, j, end, m)
        &&& h1.search_start == Self::shrink_cursor(
            h0.runs(),
            j,
            end as int,
            h0.search_start as int,
        )
    }

    /// Shared shape facts for the split proofs.
    #[verifier::rlimit(100)]
    proof fn lemma_shrink_cells_shape(
        h0: MuHeap,
        h1: MuHeap,
        j: int,
        cur: usize,
        nxt: usize,
        end: usize,
    )
        requires
            Self::shrink_ctx(h0, h1, j, cur, nxt, end),
        ensures
            forall|i1: int, j1: int|
                0 <= i1 < j1 < h0.bounds@.len() ==> h0.bounds@[i1] < h0.bounds@[j1],
            forall|i1: int, j1: int|
                0 <= i1 < j1 < h1.bounds@.len() ==> h1.bounds@[i1] < h1.bounds@[j1],
            h0.cells@[nxt as int].next matches HeapLink::Free(t) ==> j + 2 < h0.bounds@.len()
                && h0.bounds@[j + 2] == t && h0.cells@[t as int].next is Used,
            h0.cells@[nxt as int].next is End ==> j + 1 == h0.bounds@.len() - 1,
            h0.cells@[nxt as int].next is Used ==> j + 1 < h0.bounds@.len() - 1,
            !h0.runs()[j].free,
    {
        let b0 = h0.bounds@;
        let c0 = h0.cells@;
        let b1 = h1.bounds@;
        let m: int = if c0[nxt as int].next is Used { 0 } else { 1 };
        Self::lemma_sorted_all(b0);
        assert forall|i1: int|
            #![trigger b1[i1], b1[i1 + 1]]
            0 <= i1 < b1.len() - 1 implies b1[i1] < b1[i1 + 1] by {
            if i1 > j + 1 {
                let q = i1 - 1 + m;
                assert(b1[i1] == b0[q] && b1[i1 + 1] == b0[q + 1]);
                assert(b0[q] < b0[q + 1]);
            } else if i1 == j + 1 {
                assert(b1[i1] == end);
                assert(b1[i1 + 1] == b0[j + 1 + m]);
                assert(end < nxt && nxt as int <= b0[j + 1 + m]);
            }
        }
        Self::lemma_sorted_all(b1);
        if c0[nxt as int].next is Free {
            assert(j + 1 < b0.len() - 1) by {
                if j + 1 == b0.len() - 1 {
                    assert(c0[b0[b0.len() - 1] as int].next == HeapLink::End);
                }
            }
            let q = j + 1;
            assert(Self::cells_connect(c0, b0[q], b0[q + 1]));
            assert(c0[b0[q] as int].next is Free ==> c0[b0[q + 1] as int].next is Used);
        }
        if c0[nxt as int].next is End {
            assert(j + 1 == b0.len() - 1) by {
                if j + 1 < b0.len() - 1 {
                    let q = j + 1;
                    assert(Self::cells_connect(c0, b0[q], b0[q + 1]));
                }
            }
        }
        if c0[nxt as int].next is Used {
            assert(j + 1 < b0.len() - 1) by {
                if j + 1 == b0.len() - 1 {
                    assert(c0[b0[b0.len() - 1] as int].next == HeapLink::End);
                }
            }
        }
    }

    /// After a split, consecutive bounds are connected and the last
    /// bound opens the terminal free run.
    #[verifier::rlimit(100)]
    proof fn lemma_shrink_cells_connect(
        h0: MuHeap,
        h1: MuHeap,
        j: int,
        cur: usize,
        nxt: usize,
        end: usize,
    )
        requires
            Self::shrink_ctx(h0, h1, j, cur, nxt, end),
        ensures
            forall|p: int|
                #![trigger h1.bounds@[p], h1.bounds@[p + 1]]
                0 <= p < h1.bounds@.len() - 1 ==> Self::cells_connect(
                    h1.cells@,
                    h1.bounds@[p],
                    h1.bounds@[p + 1],
                ),
            h1.cells@[h1.bounds@[h1.bounds@.len() - 1] as int].next == HeapLink::End,
    {
        let b0 = h0.bounds@;
        let c0 = h0.cells@;
        let b1 = h1.bounds@;
        let c1 = h1.cells@;
        let m: int = if c0[nxt as int].next is Used { 0 } else { 1 };
        let n = b0.len() as int;
        Self::lemma_shrink_cells_shape(h0, h1, j, cur, nxt, end);
        assert forall|p: int| 0 <= p < b1.len() - 1 implies Self::cells_connect(
            c1,
            #[trigger] b1[p],
            b1[p + 1],
        ) by {
            if p < j - 1 {
                assert(b1[p] == b0[p] && b1[p + 1] == b0[p + 1]);
                assert(Self::cells_connect(c0, b0[p], b0[p + 1]));
                assert(b0[p] < cur && b0[p + 1] < cur || b0[p + 1] == b0[j]);
                assert(c1[b0[p] as int] == c0[b0[p] as int]);
                assert(c1[b0[p + 1] as int] == c0[b0[p + 1] as int]);
            } else if p == j - 1 {
                assert(b1[p] == b0[p] && b1[p + 1] == cur);
                assert(Self::cells_connect(c0, b0[p], b0[p + 1]));
                assert(c1[b0[p] as int] == c0[b0[p] as int]);
                assert(c1[cur as int].prev == c0[cur as int].prev);
            } else if p == j {
                assert(b1[p] == cur && b1[p + 1] == end);
                assert(c1[cur as int].next == HeapLink::Used(end));
                assert(c1[end as int].prev == HeapLink::Used(cur));
            } else if p == j + 1 {
                assert(b1[p] == end);
                if c0[nxt as int].next is Used {
                    assert(b1[p + 1] == b0[j + 1] && b0[j + 1] == nxt);
                    assert(c1[end as int].next == HeapLink::Free(nxt));
                    assert(c1[nxt as int].prev == HeapLink::Free(end));
                } else if c0[nxt as int].next is Free {
                    let t = c0[nxt as int].next->Free_0;
                    assert(b1[p + 1] == b0[j + 2] && b0[j + 2] == t);
                    assert(c1[end as int].next == HeapLink::Free(t));
                    assert(c1[t as int].prev == HeapLink::Free(end));
                } else {
                    assert(b1.len() - 1 == j + 1);
                    assert(false);
                }
            } else {
                let q = p - 1 + m;
                assert(b1[p] == b0[q] && b1[p + 1] == b0[q + 1]);
                assert(q >= j + 1 + m);
                assert(Self::cells_connect(c0, b0[q], b0[q + 1]));
                if c0[nxt as int].next is Used {
                    if q == j + 1 {
                        assert(b0[q] == nxt);
                        assert(c1[nxt as int].next == c0[nxt as int].next);
                    } else {
                        assert(b0[q] > b0[j + 1]);
                        assert(c1[b0[q] as int] == c0[b0[q] as int]);
                    }
                    assert(b0[q + 1] > b0[j + 1]);
                    assert(c1[b0[q + 1] as int] == c0[b0[q + 1] as int]);
                } else if c0[nxt as int].next is Free {
                    let t = c0[nxt as int].next->Free_0;
                    if q == j + 2 {
                        assert(b0[q] == t);
                        assert(c1[t as int].next == c0[t as int].next);
                    } else {
                        assert(b0[q] > b0[j + 2]);
                        assert(c1[b0[q] as int] == c0[b0[q] as int]);
                    }
                    assert(b0[q + 1] > b0[j + 2]);
                    assert(c1[b0[q + 1] as int] == c0[b0[q + 1] as int]);
                } else {
                    assert(q >= j + 2 && j + 1 == n - 1);
                    assert(false);
                }
            }
        }
        assert(c1[b1[b1.len() - 1] as int].next == HeapLink::End) by {
            if c0[nxt as int].next is End {
                assert(b1.len() - 1 == j + 1);
                assert(b1[j + 1] == end);
            } else {
                assert(b1[b1.len() - 1] == b0[n - 1]);
                assert(n - 1 >= j + 1 + m);
                if c0[nxt as int].next is Used && b0[n - 1] == nxt {
                    assert(c1[nxt as int].next == c0[nxt as int].next);
                } else if c0[nxt as int].next is Free && b0[n - 1] == c0[nxt as int].next->Free_0 {
                    let t = c0[nxt as int].next->Free_0;
                    assert(c1[t as int].next == c0[t as int].next);
                } else {
                    assert(b0[n - 1] > cur && b0[n - 1] != end) by {
                        assert(b0[n - 1] >= b0[j + 1]);
                        assert(end < nxt);
                    }
                    assert(c1[b0[n - 1] as int] == c0[b0[n - 1] as int]);
                }
            }
        }
    }

    /// After a split, the chain invariant holds again.
    #[verifier::rlimit(100)]
    proof fn lemma_shrink_cells_wf(
        h0: MuHeap,
        h1: MuHeap,
        j: int,
        cur: usize,
        nxt: usize,
        end: usize,
    )
        requires
            Self::shrink_ctx(h0, h1, j, cur, nxt, end),
        ensures
            h1.wf_built(),
    {
        Self::lemma_shrink_cells_shape(h0, h1, j, cur, nxt, end);
        Self::lemma_shrink_cells_connect(h0, h1, j, cur, nxt, end);
        Self::lemma_shrink_cells_wf_tags(h0, h1, j, cur, nxt, end);
    }

    /// After a split: run tags and the cursor are in order.
    #[verifier::rlimit(100)]
    proof fn lemma_shrink_cells_wf_tags(
        h0: MuHeap,
        h1: MuHeap,
        j: int,
        cur: usize,
        nxt: usize,
        end: usize,
    )
        requires
            Self::shrink_ctx(h0, h1, j, cur, nxt, end),
        ensures
            forall|p: int|
                #![trigger h1.bounds@[p], h1.bounds@[p + 1]]
                0 <= p < h1.bounds@.len() - 1 && h1.cells@[h1.bounds@[p] as int].next is Free
                    ==> h1.cells@[h1.bounds@[p + 1] as int].next is Used,
            forall|p: int|
                #![trigger h1.bounds@[p], h1.bounds@[p + 1]]
                0 <= p < h1.bounds@.len() - 1 && h1.cells@[h1.bounds@[p] as int].next is Used
                    ==> h1.bounds@[p] + 2 <= h1.bounds@[p + 1],
            h1.cells@[0].prev == HeapLink::Used(0usize),
            exists|p: int|
                0 <= p < h1.bounds@.len() && #[trigger] h1.bounds@[p] == h1.search_start,
    {
        let b0 = h0.bounds@;
        let c0 = h0.cells@;
        let b1 = h1.bounds@;
        let c1 = h1.cells@;
        let m: int = if c0[nxt as int].next is Used { 0 } else { 1 };
        let n = b0.len() as int;
        Self::lemma_shrink_cells_shape(h0, h1, j, cur, nxt, end);
        assert forall|p: int|
            #![trigger b1[p], b1[p + 1]]
            0 <= p < b1.len() - 1 && c1[b1[p] as int].next is Free implies c1[b1[p
            + 1] as int].next is Used by {
            if p < j - 1 {
                assert(b1[p] == b0[p] && b1[p + 1] == b0[p + 1]);
                assert(c1[b0[p] as int] == c0[b0[p] as int]);
                assert(c1[b0[p + 1] as int] == c0[b0[p + 1] as int]);
            } else if p == j - 1 {
                assert(b1[p] == b0[p]);
                assert(c1[b0[p] as int] == c0[b0[p] as int]);
                // The run before the split run may be free; it is then
                // followed by the kept head, which stays in use.
                assert(b1[p + 1] == cur);
                assert(c1[cur as int].next == HeapLink::Used(end));
            } else if p == j {
                assert(c1[b1[p] as int].next == HeapLink::Used(end));
            } else if p == j + 1 {
                if c0[nxt as int].next is Used {
                    assert(b1[p + 1] == nxt);
                    assert(c1[nxt as int].next == c0[nxt as int].next);
                } else if c0[nxt as int].next is Free {
                    let t = c0[nxt as int].next->Free_0;
                    assert(b1[p + 1] == t);
                    assert(c0[t as int].next is Used);
                    assert(c1[t as int].next == c0[t as int].next);
                } else {
                    assert(b1.len() - 1 == j + 1);
                    assert(false);
                }
            } else {
                let q = p - 1 + m;
                assert(b1[p] == b0[q] && b1[p + 1] == b0[q + 1]);
                assert(q >= j + 1 + m);
                assert(c0[b0[q] as int].next is Free ==> c0[b0[q + 1] as int].next is Used);
                assert(c1[b0[q] as int].next == c0[b0[q] as int].next) by {
                    assert(b0[q] > b0[j]);
                    assert(b0[q] != end as usize) by {
                        assert(b0[q] >= b0[j + 1]);
                    }
                    if c0[nxt as int].next is Used && b0[q] == nxt {
                    } else if c0[nxt as int].next matches HeapLink::Free(t) && b0[q] == t {
                    } else {
                        assert(c1[b0[q] as int] == c0[b0[q] as int]);
                    }
                }
                assert(c1[b0[q + 1] as int].next == c0[b0[q + 1] as int].next) by {
                    assert(b0[q + 1] > b0[j + 1 + m]);
                    assert(c1[b0[q + 1] as int] == c0[b0[q + 1] as int]);
                }
            }
        }
        assert forall|p: int|
            #![trigger b1[p], b1[p + 1]]
            0 <= p < b1.len() - 1 && c1[b1[p] as int].next is Used implies b1[p] + 2 <= b1[p
            + 1] by {
            if p < j {
                assert(b1[p] == b0[p] && b1[p + 1] == b0[p + 1]);
                assert(c1[b0[p] as int] == c0[b0[p] as int]);
            } else if p == j {
                assert(cur + 2 <= end);
            } else if p == j + 1 {
                assert(c1[end as int].next is Free || c1[end as int].next is End);
            } else {
                let q = p - 1 + m;
                assert(b1[p] == b0[q] && b1[p + 1] == b0[q + 1]);
                assert(q >= j + 1 + m);
                assert(c1[b0[q] as int].next == c0[b0[q] as int].next) by {
                    assert(b0[q] > b0[j]);
                    assert(b0[q] != end as usize) by {
                        assert(b0[q] >= b0[j + 1]);
                    }
                    if c0[nxt as int].next is Used && b0[q] == nxt {
                    } else if c0[nxt as int].next matches HeapLink::Free(t) && b0[q] == t {
                    } else {
                        assert(c1[b0[q] as int] == c0[b0[q] as int]);
                    }
                }
            }
        }
        assert(c1[0].prev == HeapLink::Used(0usize)) by {
            assert(end as int != 0 && nxt as int != 0) by {
                assert(b0[0] == 0usize);
                assert(b0[0] <= b0[j]);
            }
            if c0[nxt as int].next is Free {
                let t = c0[nxt as int].next->Free_0;
                assert(0 != t as int) by {
                    assert(b0[0] < b0[j + 2]);
                }
            }
            if cur == 0 {
                assert(c1[cur as int].prev == c0[cur as int].prev);
            } else {
                assert(c1[0] == c0[0]);
            }
        }
        assert(exists|p: int| 0 <= p < b1.len() && #[trigger] b1[p] == h1.search_start) by {
            let rs0 = h0.runs();
            let ss = h0.search_start as int;
            if h1.search_start as int == end as int {
                assert(b1[j + 1] == end);
            } else {
                assert(h1.search_start == h0.search_start);
                let p = choose|p: int|
                    0 <= p < b0.len() && #[trigger] b0[p] == h0.search_start;
                let upper: int = if j + 1 < rs0.len() - 1 && rs0[j + 1].free {
                    rs0[j + 1].end
                } else {
                    rs0[j].end
                };
                assert(!(rs0[j].start <= ss <= upper));
                if p <= j {
                    assert(ss <= b0[j] || p == j);
                    assert(rs0[j].start == b0[j] as int);
                    assert(p < j || ss < rs0[j].start);
                    assert(b1[p] == b0[p]);
                } else {
                    assert(ss >= b0[j + 1] as int) by {
                        assert(b0[j + 1] <= b0[p]);
                    }
                    assert(rs0[j].end == b0[j + 1] as int);
                    if m == 0 {
                        assert(p >= j + 2) by {
                            if p == j + 1 {
                                assert(ss == rs0[j].end);
                            }
                        }
                        assert(b1[p + 1] == b0[p]);
                        assert(0 <= p + 1 < b1.len());
                    } else {
                        if c0[nxt as int].next is End {
                            assert(j + 1 == n - 1);
                            assert(p == j + 1);
                            assert(upper == rs0[j].end);
                            assert(false);
                        } else {
                            let t = c0[nxt as int].next->Free_0;
                            assert(rs0[j + 1].end == b0[j + 2] as int);
                            assert(upper == b0[j + 2] as int);
                            assert(p >= j + 3) by {
                                if p == j + 1 || p == j + 2 {
                                    assert(b0[p] <= b0[j + 2]);
                                }
                            }
                            assert(b1[p] == b0[p]) by {
                                assert(p - 1 + m == p);
                            }
                        }
                    }
                }
            }
        }
    }

    /// After a split, the run view is exactly the splice described by
    /// [`MuHeap::shrink_split`].
    #[verifier::rlimit(100)]
    proof fn lemma_shrink_cells_runs(
        h0: MuHeap,
        h1: MuHeap,
        j: int,
        cur: usize,
        nxt: usize,
        end: usize,
    )
        requires
            Self::shrink_ctx(h0, h1, j, cur, nxt, end),
        ensures
            h1.runs() == Self::shrink_split(h0.runs(), j, end as int),
    {
        let b0 = h0.bounds@;
        let c0 = h0.cells@;
        let b1 = h1.bounds@;
        let c1 = h1.cells@;
        let m: int = if c0[nxt as int].next is Used { 0 } else { 1 };
        let n = b0.len() as int;
        Self::lemma_shrink_cells_shape(h0, h1, j, cur, nxt, end);
        let rs0 = h0.runs();
        let rs1 = h1.runs();
        let sp = Self::shrink_split(rs0, j, end as int);
        assert((j < rs0.len() - 1 && rs0[j + 1].free) <==> m == 1) by {
            if j + 1 == n - 1 {
                assert(c0[b0[n - 1] as int].next == HeapLink::End);
            }
        }
        assert(rs1.len() == sp.len());
        assert forall|i: int| 0 <= i < rs1.len() implies rs1[i] == sp[i] by {
            if i < j {
                assert(b1[i] == b0[i] && b1[i + 1] == b0[i + 1]);
                assert(c1[b0[i] as int] == c0[b0[i] as int]);
                assert(sp[i] == rs0[i]);
            } else if i == j {
                assert(b1[i] == cur && b1[i + 1] == end);
                assert(c1[cur as int].next == HeapLink::Used(end));
            } else if i == j + 1 {
                assert(b1[i] == end);
                if c0[nxt as int].next is End {
                    assert(i == rs1.len() - 1);
                    assert(rs0[j + 1].end == h0.ncells as int);
                } else if c0[nxt as int].next is Used {
                    assert(b1[i + 1] == nxt);
                } else {
                    let t = c0[nxt as int].next->Free_0;
                    assert(b1[i + 1] == b0[j + 2] && b0[j + 2] == t);
                    assert(rs0[j + 1].end == b0[j + 2] as int);
                }
            } else {
                let q = i - 1 + m;
                assert(b1[i] == b0[q]);
                assert(q >= j + 1 + m);
                assert(sp[i] == rs0[q]);
                assert(c1[b0[q] as int].next == c0[b0[q] as int].next) by {
                    assert(b0[q] > b0[j]);
                    assert(b0[q] != end as usize) by {
                        assert(b0[q] >= b0[j + 1]);
                    }
                    if c0[nxt as int].next is Used && b0[q] == nxt {
                    } else if c0[nxt as int].next matches HeapLink::Free(t) && b0[q] == t {
                    } else {
                        assert(c1[b0[q] as int] == c0[b0[q] as int]);
                    }
                }
                if i == rs1.len() - 1 {
                    assert(q == n - 1);
                } else {
                    assert(b1[i + 1] == b0[q + 1]);
                }
            }
        }
        assert(rs1 =~= sp);
    }

    /// Splits the used run whose management cell is `cur_i` at cell
    /// `end_i`, freeing the tail and coalescing it with the run that
    /// follows.
    fn shrink_cells(&mut self, Ghost(j): Ghost<int>, cur_i: usize, nxt_i: usize, end_i: usize)
        requires
            old(self).wf(),
            old(self).is_built(),
            0 <= j < old(self).bounds@.len() - 1,
            old(self).bounds@[j] == cur_i,
            old(self).cells@[cur_i as int].next == HeapLink::Used(nxt_i),
            cur_i + 2 <= end_i,
            end_i < nxt_i,
        ensures
            final(self).wf(),
            final(self).is_built(),
            final(self).runs() == Self::shrink_split(old(self).runs(), j, end_i as int),
            final(self).spec_search_start() == Self::shrink_cursor(
                old(self).runs(),
                j,
                end_i as int,
                old(self).spec_search_start(),
            ),
            Self::same_heap_frame(*old(self), *final(self)),
            final(self).spec_data() == old(self).spec_data(),
    {
        let ghost h0 = *old(self);
        let ghost b0 = h0.bounds@;
        proof {
            Self::lemma_sorted_all(b0);
            assert(Self::cells_connect(h0.cells@, b0[j], b0[j + 1]));
            assert(b0[j + 1] == nxt_i);
            assert(b0[j + 1] < h0.ncells);
        }

        // Close the kept head of the run at the new cell count.
        let cc = self.cells[cur_i];
        self.cells.set(cur_i, HeapCell { prev: cc.prev, next: HeapLink::Used(end_i) });
        let ce = self.cells[end_i];
        self.cells.set(end_i, HeapCell { prev: HeapLink::Used(cur_i), next: ce.next });

        // Free the tail and coalesce it with what follows.
        let following = self.cells[nxt_i].next;
        match following {
            HeapLink::Used(_) => {
                let ce2 = self.cells[end_i];
                self.cells.set(end_i, HeapCell { prev: ce2.prev, next: HeapLink::Free(nxt_i) });
                let cn = self.cells[nxt_i];
                self.cells.set(nxt_i, HeapCell { prev: HeapLink::Free(end_i), next: cn.next });
                if self.search_start >= cur_i && self.search_start <= nxt_i {
                    self.search_start = end_i;
                }
            },
            HeapLink::Free(t) => {
                proof {
                    assert(j + 2 < b0.len()) by {
                        if j + 1 == b0.len() - 1 {
                            assert(h0.cells@[b0[b0.len() - 1] as int].next == HeapLink::End);
                        }
                    }
                    let q = j + 1;
                    assert(Self::cells_connect(h0.cells@, b0[q], b0[q + 1]));
                    assert(t == b0[q + 1]);
                    assert(b0[q + 1] < h0.ncells);
                }
                let ce2 = self.cells[end_i];
                self.cells.set(end_i, HeapCell { prev: ce2.prev, next: HeapLink::Free(t) });
                let ct = self.cells[t];
                self.cells.set(t, HeapCell { prev: HeapLink::Free(end_i), next: ct.next });
                if self.search_start >= cur_i && self.search_start <= t {
                    self.search_start = end_i;
                }
            },
            HeapLink::End => {
                let ce2 = self.cells[end_i];
                self.cells.set(end_i, HeapCell { prev: ce2.prev, next: HeapLink::End });
                if self.search_start >= cur_i && self.search_start <= nxt_i {
                    self.search_start = end_i;
                }
            },
        }

        let ghost m: int = if h0.cells@[nxt_i as int].next is Used { 0 } else { 1 };
        let ghost newb: Seq<usize> = Self::shrink_bounds(b0, j, end_i, m);
        self.bounds = Ghost(newb);

        proof {
            let rs0 = h0.runs();
            let ss0 = h0.search_start as int;
            assert(rs0[j].start == cur_i as int && rs0[j].end == nxt_i as int);
            assert(self.search_start as int == Self::shrink_cursor(rs0, j, end_i as int, ss0)) by {
                if h0.cells@[nxt_i as int].next is Free {
                    let t = h0.cells@[nxt_i as int].next->Free_0;
                    assert(j + 1 < rs0.len() - 1 && rs0[j + 1].free);
                    assert(rs0[j + 1].end == b0[j + 2] as int && b0[j + 2] == t);
                } else if h0.cells@[nxt_i as int].next is End {
                    assert(j + 1 == b0.len() - 1) by {
                        if j + 1 < b0.len() - 1 {
                            let q = j + 1;
                            assert(Self::cells_connect(h0.cells@, b0[q], b0[q + 1]));
                        }
                    }
                    assert(!(j + 1 < rs0.len() - 1));
                } else {
                    assert(!rs0[j + 1].free) by {
                        if j + 1 == b0.len() - 1 {
                            assert(h0.cells@[b0[b0.len() - 1] as int].next == HeapLink::End);
                        }
                    }
                }
            }
            assert(Self::shrink_ctx(h0, *self, j, cur_i, nxt_i, end_i));
            Self::lemma_shrink_cells_wf(h0, *self, j, cur_i, nxt_i, end_i);
            Self::lemma_shrink_cells_runs(h0, *self, j, cur_i, nxt_i, end_i);
        }
    }

    /// Where the scan cursor stands after the used run at position `j`
    /// is extended in place up to cell `end`.
    pub open spec fn grow_cursor(rs: Seq<HeapRun>, j: int, end: int, ss: int) -> int {
        if rs[j].start <= ss <= rs[j + 1].end {
            end
        } else {
            ss
        }
    }

    /// The bounds list after extending the run at position `j` up to
    /// cell `end`: the run's old closing cell disappears, and `end`
    /// takes its place unless the whole following free run was
    /// consumed.
    spec fn grow_bounds(b0: Seq<usize>, j: int, end: usize, t: int) -> Seq<usize> {
        Seq::new(
            (b0.len() - 1 + t) as nat,
            |i: int|
                if i <= j {
                    b0[i]
                } else if t == 1 && i == j + 1 {
                    end
                } else {
                    b0[i + 1 - t]
                },
        )
    }

    /// The relation between a heap and its state after the used run at
    /// position `j` has been extended in place up to `end`, consuming
    /// the head of the following free run.
    spec fn grow_ctx(
        h0: MuHeap,
        h1: MuHeap,
        j: int,
        cur: usize,
        nxt: usize,
        far: usize,
        end: usize,
    ) -> bool {
        let b0 = h0.bounds@;
        let c0 = h0.cells@;
        let c1 = h1.cells@;
        let t: int = if end < far { 1 } else { 0 };
        &&& h0.wf_built()
        &&& 0 <= j < b0.len() - 2
        &&& b0[j] == cur
        &&& b0[j + 1] == nxt
        &&& b0[j + 2] == far
        &&& c0[cur as int].next == HeapLink::Used(nxt)
        &&& c0[nxt as int].next == HeapLink::Free(far)
        &&& cur + 2 <= end
        &&& end <= far
        &&& h1.width == h0.width
        &&& h1.given_base == h0.given_base
        &&& h1.given_size == h0.given_size
        &&& h1.base == h0.base
        &&& h1.ncells == h0.ncells
        &&& h1.data@ == h0.data@
        &&& c1.len() == c0.len()
        &&& c1[cur as int].next == HeapLink::Used(end)
        &&& c1[cur as int].prev == c0[cur as int].prev
        &&& c1[end as int].prev == HeapLink::Used(cur)
        &&& (end < far ==> {
            &&& c1[end as int].next == HeapLink::Free(far)
            &&& c1[far as int].prev == HeapLink::Free(end)
            &&& c1[far as int].next == c0[far as int].next
            &&& (forall|i: int|
                0 <= i < c1.len() && i != cur && i != end && i != far ==> c1[i] == #[trigger] c0[i])
        })
        &&& (end == far ==> {
            &&& c1[far as int].next == c0[far as int].next
            &&& (forall|i: int|
                0 <= i < c1.len() && i != cur && i != end ==> c1[i] == #[trigger] c0[i])
        })
        &&& h1.bounds@ == Self::grow_bounds(b0, j, end, t)
        &&& h1.search_start == Self::grow_cursor(h0.runs(), j, end as int, h0.search_start as int)
    }

    /// Shared shape facts for the in-place extension proofs.
    #[verifier::rlimit(100)]
    proof fn lemma_grow_cells_shape(
        h0: MuHeap,
        h1: MuHeap,
        j: int,
        cur: usize,
        nxt: usize,
        far: usize,
        end: usize,
    )
        requires
            Self::grow_ctx(h0, h1, j, cur, nxt, far, end),
        ensures
            forall|i1: int, j1: int|
                0 <= i1 < j1 < h0.bounds@.len() ==> h0.bounds@[i1] < h0.bounds@[j1],
            forall|i1: int, j1: int|
                0 <= i1 < j1 < h1.bounds@.len() ==> h1.bounds@[i1] < h1.bounds@[j1],
            h0.cells@[far as int].next is Used,
            j + 2 <= h0.bounds@.len() - 1,
    {
        let b0 = h0.bounds@;
        let c0 = h0.cells@;
        let b1 = h1.bounds@;
        let t: int = if end < far { 1 } else { 0 };
        Self::lemma_sorted_all(b0);
        assert(c0[far as int].next is Used) by {
            let q = j + 1;
            assert(Self::cells_connect(c0, b0[q], b0[q + 1]));
            assert(c0[b0[q] as int].next is Free ==> c0[b0[q + 1] as int].next is Used);
        }
        assert forall|i1: int|
            #![trigger b1[i1], b1[i1 + 1]]
            0 <= i1 < b1.len() - 1 implies b1[i1] < b1[i1 + 1] by {
            if i1 > j + t {
                let q = i1 + 1 - t;
                assert(b1[i1] == b0[q] && b1[i1 + 1] == b0[q + 1]);
                assert(b0[q] < b0[q + 1]);
            } else if t == 1 && i1 == j + 1 {
                assert(b1[i1] == end && b1[i1 + 1] == b0[j + 2]);
            } else if i1 == j {
                if t == 1 {
                    assert(b1[i1 + 1] == end);
                } else {
                    assert(b1[i1 + 1] == b0[j + 2]);
                }
            }
        }
        Self::lemma_sorted_all(b1);
    }

    /// After an in-place extension, consecutive bounds are connected
    /// and the last bound opens the terminal free run.
    #[verifier::rlimit(100)]
    proof fn lemma_grow_cells_connect(
        h0: MuHeap,
        h1: MuHeap,
        j: int,
        cur: usize,
        nxt: usize,
        far: usize,
        end: usize,
    )
        requires
            Self::grow_ctx(h0, h1, j, cur, nxt, far, end),
        ensures
            forall|p: int|
                #![trigger h1.bounds@[p], h1.bounds@[p + 1]]
                0 <= p < h1.bounds@.len() - 1 ==> Self::cells_connect(
                    h1.cells@,
                    h1.bounds@[p],
                    h1.bounds@[p + 1],
                ),
            h1.cells@[h1.bounds@[h1.bounds@.len() - 1] as int].next == HeapLink::End,
    {
        let b0 = h0.bounds@;
        let c0 = h0.cells@;
        let b1 = h1.bounds@;
        let c1 = h1.cells@;
        let t: int = if end < far { 1 } else { 0 };
        let n = b0.len() as int;
        Self::lemma_grow_cells_shape(h0, h1, j, cur, nxt, far, end);
        assert forall|p: int| 0 <= p < b1.len() - 1 implies Self::cells_connect(
            c1,
            #[trigger] b1[p],
            b1[p + 1],
        ) by {
            if p < j - 1 {
                assert(b1[p] == b0[p] && b1[p + 1] == b0[p + 1]);
                assert(Self::cells_connect(c0, b0[p], b0[p + 1]));
                assert(c1[b0[p] as int] == c0[b0[p] as int]);
                assert(c1[b0[p + 1] as int] == c0[b0[p + 1] as int]);
            } else if p == j - 1 {
                assert(b1[p] == b0[p] && b1[p + 1] == cur);
                assert(Self::cells_connect(c0, b0[p], b0[p + 1]));
                assert(c1[b0[p] as int] == c0[b0[p] as int]);
                assert(c1[cur as int].prev == c0[cur as int].prev);
            } else if p == j {
                assert(c1[cur as int].next == HeapLink::Used(end));
                if t == 1 {
                    assert(b1[p + 1] == end);
                    assert(c1[end as int].prev == HeapLink::Used(cur));
                } else {
                    assert(b1[p + 1] == b0[j + 2] && b0[j + 2] == far && far == end);
                    assert(c1[end as int].prev == HeapLink::Used(cur));
                }
            } else if t == 1 && p == j + 1 {
                assert(b1[p] == end && b1[p + 1] == b0[j + 2]);
                assert(c1[end as int].next == HeapLink::Free(far));
                assert(c1[far as int].prev == HeapLink::Free(end));
            } else {
                let q = p + 1 - t;
                assert(b1[p] == b0[q] && b1[p + 1] == b0[q + 1]);
                assert(q >= j + 2);
                assert(Self::cells_connect(c0, b0[q], b0[q + 1]));
                assert(c1[b0[q] as int].next == c0[b0[q] as int].next) by {
                    if q == j + 2 {
                        assert(b0[q] == far);
                    } else {
                        assert(b0[q] > b0[j + 2]);
                        assert(c1[b0[q] as int] == c0[b0[q] as int]);
                    }
                }
                assert(c1[b0[q] as int].prev == c0[b0[q] as int].prev || q == j + 2) by {
                    if q > j + 2 {
                        assert(b0[q] > b0[j + 2]);
                        assert(c1[b0[q] as int] == c0[b0[q] as int]);
                    }
                }
                assert(c1[b0[q + 1] as int] == c0[b0[q + 1] as int]) by {
                    assert(b0[q + 1] > b0[j + 2]);
                }
                if q == j + 2 {
                    // The boundary after the consumed free run keeps its
                    // forward link; only its back link may have changed,
                    // and the connection is re-established above.
                    if t == 1 {
                        assert(c1[far as int].prev == HeapLink::Free(end));
                        assert(c0[far as int].next == c1[far as int].next);
                        assert(Self::cells_connect(c1, b1[p], b1[p + 1]));
                    } else {
                        // The whole free run was consumed: `far` is now
                        // the extended run's closing cell, with its
                        // forward link intact.
                        assert(b1[p] == far && far == end);
                        assert(c1[far as int].prev == HeapLink::Used(cur));
                        assert(c0[far as int].next == c1[far as int].next);
                        assert(Self::cells_connect(c1, b1[p], b1[p + 1]));
                    }
                }
            }
        }
        assert(c1[b1[b1.len() - 1] as int].next == HeapLink::End) by {
            assert(b1[b1.len() - 1] == b0[n - 1]);
            if n - 1 == j + 2 {
                assert(b0[n - 1] == far);
                assert(c1[far as int].next == c0[far as int].next);
            } else {
                assert(b0[n - 1] > b0[j + 2]);
                assert(c1[b0[n - 1] as int] == c0[b0[n - 1] as int]);
            }
        }
    }

    /// After an in-place extension, the chain invariant holds again.
    #[verifier::rlimit(100)]
    proof fn lemma_grow_cells_wf(
        h0: MuHeap,
        h1: MuHeap,
        j: int,
        cur: usize,
        nxt: usize,
        far: usize,
        end: usize,
    )
        requires
            Self::grow_ctx(h0, h1, j, cur, nxt, far, end),
        ensures
            h1.wf_built(),
    {
        Self::lemma_grow_cells_shape(h0, h1, j, cur, nxt, far, end);
        Self::lemma_grow_cells_connect(h0, h1, j, cur, nxt, far, end);
        Self::lemma_grow_cells_wf_tags(h0, h1, j, cur, nxt, far, end);
    }

    /// After an in-place extension: run tags and the cursor are in
    /// order.
    #[verifier::rlimit(100)]
    proof fn lemma_grow_cells_wf_tags(
        h0: MuHeap,
        h1: MuHeap,
        j: int,
        cur: usize,
        nxt: usize,
        far: usize,
        end: usize,
    )
        requires
            Self::grow_ctx(h0, h1, j, cur, nxt, far, end),
        ensures
            forall|p: int|
                #![trigger h1.bounds@[p], h1.bounds@[p + 1]]
                0 <= p < h1.bounds@.len() - 1 && h1.cells@[h1.bounds@[p] as int].next is Free
                    ==> h1.cells@[h1.bounds@[p + 1] as int].next is Used,
            forall|p: int|
                #![trigger h1.bounds@[p], h1.bounds@[p + 1]]
                0 <= p < h1.bounds@.len() - 1 && h1.cells@[h1.bounds@[p] as int].next is Used
                    ==> h1.bounds@[p] + 2 <= h1.bounds@[p + 1],
            h1.cells@[0].prev == HeapLink::Used(0usize),
            exists|p: int|
                0 <= p < h1.bounds@.len() && #[trigger] h1.bounds@[p] == h1.search_start,
    {
        let b0 = h0.bounds@;
        let c0 = h0.cells@;
        let b1 = h1.bounds@;
        let c1 = h1.cells@;
        let t: int = if end < far { 1 } else { 0 };
        let n = b0.len() as int;
        Self::lemma_grow_cells_shape(h0, h1, j, cur, nxt, far, end);
        assert forall|p: int|
            #![trigger b1[p], b1[p + 1]]
            0 <= p < b1.len() - 1 && c1[b1[p] as int].next is Free implies c1[b1[p
            + 1] as int].next is Used by {
            if p < j {
                assert(b1[p] == b0[p] && b1[p + 1] == b0[p + 1]);
                assert(c1[b0[p] as int] == c0[b0[p] as int]);
                if c0[b0[p] as int].next is Free {
                    assert(c0[b0[p + 1] as int].next is Used);
                    if p + 1 == j {
                        assert(b1[p + 1] == cur);
                        assert(c1[cur as int].next == HeapLink::Used(end));
                    } else {
                        assert(b0[p + 1] < cur);
                        assert(c1[b0[p + 1] as int] == c0[b0[p + 1] as int]);
                    }
                }
            } else if p == j {
                assert(c1[b1[p] as int].next == HeapLink::Used(end));
            } else if t == 1 && p == j + 1 {
                assert(b1[p + 1] == b0[j + 2] && b0[j + 2] == far);
                assert(c1[far as int].next == c0[far as int].next);
                assert(c0[far as int].next is Used);
            } else {
                let q = p + 1 - t;
                assert(b1[p] == b0[q] && b1[p + 1] == b0[q + 1]);
                assert(q >= j + 2);
                assert(c0[b0[q] as int].next is Free ==> c0[b0[q + 1] as int].next is Used);
                assert(c1[b0[q] as int].next == c0[b0[q] as int].next) by {
                    if q == j + 2 {
                    } else {
                        assert(b0[q] > b0[j + 2]);
                        assert(c1[b0[q] as int] == c0[b0[q] as int]);
                    }
                }
                assert(c1[b0[q + 1] as int] == c0[b0[q + 1] as int]) by {
                    assert(b0[q + 1] > b0[j + 2]);
                }
            }
        }
        assert forall|p: int|
            #![trigger b1[p], b1[p + 1]]
            0 <= p < b1.len() - 1 && c1[b1[p] as int].next is Used implies b1[p] + 2 <= b1[p
            + 1] by {
            if p < j {
                assert(b1[p] == b0[p] && b1[p + 1] == b0[p + 1]);
                assert(c1[b0[p] as int] == c0[b0[p] as int]);
            } else if p == j {
                assert(cur + 2 <= end);
                if t == 1 {
                    assert(b1[p + 1] == end);
                } else {
                    assert(b1[p + 1] == b0[j + 2]);
                }
            } else if t == 1 && p == j + 1 {
                assert(c1[end as int].next is Free);
            } else {
                let q = p + 1 - t;
                assert(b1[p] == b0[q] && b1[p + 1] == b0[q + 1]);
                assert(q >= j + 2);
                assert(c1[b0[q] as int].next == c0[b0[q] as int].next) by {
                    if q == j + 2 {
                    } else {
                        assert(b0[q] > b0[j + 2]);
                        assert(c1[b0[q] as int] == c0[b0[q] as int]);
                    }
                }
            }
        }
        assert(c1[0].prev == HeapLink::Used(0usize)) by {
            assert(end as int != 0 && far as int != 0) by {
                assert(b0[0] == 0usize);
                assert(b0[0] <= b0[j]);
            }
            if cur == 0 {
                assert(c1[cur as int].prev == c0[cur as int].prev);
            } else {
                assert(c1[0] == c0[0]);
            }
        }
        assert(exists|p: int| 0 <= p < b1.len() && #[trigger] b1[p] == h1.search_start) by {
            let rs0 = h0.runs();
            let ss = h0.search_start as int;
            assert(rs0[j].start == b0[j] as int && rs0[j + 1].end == b0[j + 2] as int);
            if h1.search_start as int == end as int && rs0[j].start <= ss <= rs0[j + 1].end {
                if t == 1 {
                    assert(b1[j + 1] == end);
                } else {
                    assert(b1[j + 1] == b0[j + 2] && b0[j + 2] == far && far == end);
                }
            } else {
                assert(h1.search_start == h0.search_start);
                let p = choose|p: int|
                    0 <= p < b0.len() && #[trigger] b0[p] == h0.search_start;
                if p <= j {
                    assert(b1[p] == b0[p]);
                } else {
                    assert(ss > b0[j + 2] as int || ss < b0[j] as int) by {
                        assert(b0[j] <= b0[p]);
                        if p <= j + 2 {
                            assert(b0[p] <= b0[j + 2]);
                        }
                    }
                    assert(p >= j + 3) by {
                        if p <= j + 2 {
                            assert(b0[p] <= b0[j + 2]);
                        }
                    }
                    assert(b1[p - 1 + t] == b0[p]);
                    assert(0 <= p - 1 + t < b1.len());
                }
            }
        }
    }

    /// After an in-place extension, the run view is exactly the splice
    /// described by [`MuHeap::grow_extend`].
    #[verifier::rlimit(100)]
    proof fn lemma_grow_cells_runs(
        h0: MuHeap,
        h1: MuHeap,
        j: int,
        cur: usize,
        nxt: usize,
        far: usize,
        end: usize,
    )
        requires
            Self::grow_ctx(h0, h1, j, cur, nxt, far, end),
        ensures
            h1.runs() == Self::grow_extend(h0.runs(), j, end as int),
    {
        let b0 = h0.bounds@;
        let c0 = h0.cells@;
        let b1 = h1.bounds@;
        let c1 = h1.cells@;
        let t: int = if end < far { 1 } else { 0 };
        let n = b0.len() as int;
        Self::lemma_grow_cells_shape(h0, h1, j, cur, nxt, far, end);
        let rs0 = h0.runs();
        let rs1 = h1.runs();
        let sp = Self::grow_extend(rs0, j, end as int);
        assert(rs0[j].start == cur as int && rs0[j + 1].end == b0[j + 2] as int);
        assert(rs1.len() == sp.len());
        assert forall|i: int| 0 <= i < rs1.len() implies rs1[i] == sp[i] by {
            if i < j {
                assert(b1[i] == b0[i] && b1[i + 1] == b0[i + 1]);
                assert(c1[b0[i] as int] == c0[b0[i] as int]);
                assert(sp[i] == rs0[i]);
            } else if i == j {
                assert(b1[i] == cur);
                assert(c1[cur as int].next == HeapLink::Used(end));
                if t == 1 {
                    assert(b1[i + 1] == end);
                } else {
                    assert(b1[i + 1] == b0[j + 2] && b0[j + 2] as int == end as int);
                }
            } else if t == 1 && i == j + 1 {
                assert(b1[i] == end && b1[i + 1] == b0[j + 2]);
                assert(c1[end as int].next == HeapLink::Free(far));
            } else {
                let q = i + 1 - t;
                assert(b1[i] == b0[q]);
                assert(q >= j + 2);
                assert(sp[i] == rs0[q]);
                assert(c1[b0[q] as int].next == c0[b0[q] as int].next) by {
                    if q == j + 2 {
                        assert(b0[q] == far);
                    } else {
                        assert(b0[q] > b0[j + 2]);
                        assert(c1[b0[q] as int] == c0[b0[q] as int]);
                    }
                }
                if i == rs1.len() - 1 {
                    assert(q == n - 1);
                } else {
                    assert(b1[i + 1] == b0[q + 1]);
                }
            }
        }
        assert(rs1 =~= sp);
    }

    /// Extends the used run whose management cell is `cur_i` in place
    /// up to cell `end_i`, consuming the head of the free run that
    /// follows it.
    fn grow_cells(
        &mut self,
        Ghost(j): Ghost<int>,
        cur_i: usize,
        nxt_i: usize,
        far_i: usize,
        end_i: usize,
    )
        requires
            old(self).wf(),
            old(self).is_built(),
            0 <= j < old(self).bounds@.len() - 2,
            old(self).bounds@[j] == cur_i,
            old(self).bounds@[j + 1] == nxt_i,
            old(self).bounds@[j + 2] == far_i,
            old(self).cells@[cur_i as int].next == HeapLink::Used(nxt_i),
            old(self).cells@[nxt_i as int].next == HeapLink::Free(far_i),
            cur_i + 2 <= end_i,
            end_i <= far_i,
        ensures
            final(self).wf(),
            final(self).is_built(),
            final(self).runs() == Self::grow_extend(old(self).runs(), j, end_i as int),
            final(self).spec_search_start() == Self::grow_cursor(
                old(self).runs(),
                j,
                end_i as int,
                old(self).spec_search_start(),
            ),
            Self::same_heap_frame(*old(self), *final(self)),
            final(self).spec_data() == old(self).spec_data(),
    {
        let ghost h0 = *old(self);
        let ghost b0 = h0.bounds@;
        proof {
            Self::lemma_sorted_all(b0);
            assert(b0[j + 1] < h0.ncells && b0[j + 2] < h0.ncells);
        }

        // Extend the used run.
        let cc = self.cells[cur_i];
        self.cells.set(cur_i, HeapCell { prev: cc.prev, next: HeapLink::Used(end_i) });
        let ce = self.cells[end_i];
        self.cells.set(end_i, HeapCell { prev: HeapLink::Used(cur_i), next: ce.next });
        // What is left of the following free run stays free.
        if end_i < far_i {
            let ce2 = self.cells[end_i];
            self.cells.set(end_i, HeapCell { prev: ce2.prev, next: HeapLink::Free(far_i) });
            let cf = self.cells[far_i];
            self.cells.set(far_i, HeapCell { prev: HeapLink::Free(end_i), next: cf.next });
        }
        if self.search_start >= cur_i && self.search_start <= far_i {
            self.search_start = end_i;
        }

        let ghost t: int = if end_i < far_i { 1 } else { 0 };
        let ghost newb: Seq<usize> = Self::grow_bounds(b0, j, end_i, t);
        self.bounds = Ghost(newb);

        proof {
            let rs0 = h0.runs();
            assert(rs0[j].start == cur_i as int && rs0[j + 1].end == b0[j + 2] as int);
            assert(Self::grow_ctx(h0, *self, j, cur_i, nxt_i, far_i, end_i));
            Self::lemma_grow_cells_wf(h0, *self, j, cur_i, nxt_i, far_i, end_i);
            Self::lemma_grow_cells_runs(h0, *self, j, cur_i, nxt_i, far_i, end_i);
        }
    }

    /// Whether `addr` lies in the payload cells of a live allocation.
    pub open spec fn addr_in_live_at(self, m: int, addr: usize) -> bool {
        let rs = self.runs();
        let cs = self.spec_cell_size();
        &&& 0 <= m < rs.len()
        &&& !rs[m].free
        &&& self.spec_base() + (rs[m].start + 1) * cs <= addr
        &&& addr < self.spec_base() + rs[m].end * cs
    }

    pub open spec fn addr_in_live(self, addr: usize) -> bool {
        exists|m: int| self.addr_in_live_at(m, addr)
    }

    /// Reads one payload byte at an address inside a live allocation.
    pub fn read_byte(&self, addr: usize) -> (r: u8)
        requires
            self.wf(),
            self.is_built(),
            self.addr_in_live(addr),
        ensures
            r == self.spec_data()[addr - self.spec_base()],
    {
        proof {
            self.lemma_live_addr_in_data(addr);
        }
        self.data[addr - self.base]
    }

    /// Writes one payload byte at an address inside a live allocation.
    pub fn write_byte(&mut self, addr: usize, value: u8)
        requires
            old(self).wf(),
            old(self).is_built(),
            old(self).addr_in_live(addr),
        ensures
            final(self).wf(),
            final(self).is_built(),
            final(self).spec_data() == old(self).spec_data().update(
                addr - old(self).spec_base(),
                value,
            ),
            final(self).runs() == old(self).runs(),
            final(self).spec_search_start() == old(self).spec_search_start(),
            Self::same_heap_frame(*old(self), *final(self)),
            forall|p: usize, sz: usize| old(self).is_live(p, sz) ==> final(self).is_live(p, sz),
    {
        proof {
            self.lemma_live_addr_in_data(addr);
        }
        let off = addr - self.base;
        self.data.set(off, value);
        proof {
            assert(self.runs() =~= old(self).runs());
            assert forall|p: usize, sz: usize| old(self).is_live(p, sz) implies self.is_live(
                p,
                sz,
            ) by {
                if old(self).is_live(p, sz) {
                    let m = choose|m: int| old(self).live_at(m, p, sz);
                    assert(self.live_at(m, p, sz));
                }
            }
        }
    }

    /// An address inside a live allocation lies inside the payload
    /// arena.
    proof fn lemma_live_addr_in_data(self, addr: usize)
        requires
            self.wf(),
            self.is_built(),
            self.addr_in_live(addr),
        ensures
            0 <= addr - self.spec_base() < self.spec_data().len(),
    {
        let m = choose|m: int| self.addr_in_live_at(m, addr);
        assert(self.addr_in_live_at(m, addr));
        let rs = self.runs();
        let cs = self.spec_cell_size();
        Self::lemma_sorted_all(self.bounds@);
        assert(rs[m].end <= self.spec_ncells()) by {
            if m < rs.len() - 1 {
                assert(self.bounds@[m + 1] < self.ncells);
            }
        }
        assert(rs[m].start >= 0);
        assert((rs[m].start + 1) * cs >= 0) by (nonlinear_arith)
            requires rs[m].start + 1 >= 0 && cs >= 0;
        assert(rs[m].end * cs <= self.spec_ncells() * cs) by (nonlinear_arith)
            requires rs[m].end <= self.spec_ncells() && cs >= 1;
    }

    /// A run untouched by a claim reappears in the respliced view.
    proof fn lemma_alloc_split_preserves(rs: Seq<HeapRun>, k: int, bgn: int, end: int, j: int)
        requires
            0 <= k < rs.len(),
            0 <= j < rs.len(),
            j != k,
        ensures
            j < k ==> Self::alloc_split(rs, k, bgn, end)[j] == rs[j],
            j > k ==> Self::alloc_split(rs, k, bgn, end)[j + (if bgn > rs[k].start { 1int } else {
                0int
            }) + (if end < rs[k].end { 1int } else { 0int })] == rs[j],
    {
    }

    /// A run outside the merged span reappears in the merged view.
    proof fn lemma_dealloc_merge_preserves(rs: Seq<HeapRun>, j: int, i: int)
        requires
            0 <= j < rs.len(),
            0 <= i < rs.len(),
        ensures
            ({
                let lo: int = if j > 0 && rs[j - 1].free { j - 1 } else { j };
                let hi: int = if j < rs.len() - 1 && rs[j + 1].free { j + 1 } else { j };
                &&& (i < lo ==> Self::dealloc_merge(rs, j)[i] == rs[i])
                &&& (i > hi ==> Self::dealloc_merge(rs, j)[i - (hi - lo)] == rs[i])
            }),
    {
    }

    /// Whether the allocation at run position `j` can grow in place up
    /// to cell `end`: the next run is a bounded free run with room.
    pub open spec fn grow_can_extend(pre: MuHeap, j: int, end: int) -> bool {
        let rs = pre.runs();
        &&& j + 1 < rs.len() - 1
        &&& rs[j + 1].free
        &&& end <= rs[j + 1].end
    }

    /// The contract of shrinking one live allocation: the pointer is
    /// returned unchanged (a shrink never relocates); when the new cell
    /// count is smaller, the tail is split off, freed and coalesced.
    pub open spec fn shrink_core_post(
        pre: MuHeap,
        post: MuHeap,
        r: usize,
        ptr: usize,
        old_size: usize,
        new_size: usize,
    ) -> bool {
        &&& Self::same_heap_frame(pre, post)
        &&& post.spec_data() == pre.spec_data()
        &&& r == ptr
        &&& (exists|j: int|
            {
                let end = pre.runs()[j].start + pre.spec_ncells_up(new_size as int) + 1;
                &&& #[trigger] pre.live_at(j, ptr, old_size)
                &&& (end < pre.runs()[j].end ==> {
                    &&& post.runs() == Self::shrink_split(pre.runs(), j, end)
                    &&& post.spec_search_start() == Self::shrink_cursor(
                        pre.runs(),
                        j,
                        end,
                        pre.spec_search_start(),
                    )
                })
                &&& (end >= pre.runs()[j].end ==> post == pre)
            })
    }

    /// Shrinks the allocation at `ptr` from `old_size` to `new_size`
    /// bytes, in place.  A zero-size allocation's sentinel is returned
    /// unchanged.
    pub fn shrink(&mut self, ptr: usize, old_size: usize, new_size: usize, align: usize) -> (r:
        usize)
        requires
            old(self).wf(),
            old(self).is_built(),
            Self::valid_align(align),
            new_size <= old_size,
            old_size == 0 ==> ptr == align,
            old_size > 0 ==> {
                &&& old(self).is_live(ptr, old_size)
                &&& (ptr as int) % (align as int) == 0
                &&& new_size >= 1
            },
        ensures
            final(self).wf(),
            final(self).is_built(),
            old_size == 0 ==> r == ptr && *final(self) == *old(self),
            old_size > 0 ==> Self::shrink_core_post(
                *old(self),
                *final(self),
                r,
                ptr,
                old_size,
                new_size,
            ),
    {
        if old_size == 0 {
            // Nothing was allocated for the sentinel: return it as is.
            return ptr;
        }
        self.do_shrink(ptr, old_size, new_size, align)
    }

    /// Splits the allocation at `ptr` down to the new cell count.
    fn do_shrink(&mut self, ptr: usize, old_size: usize, new_size: usize, align: usize) -> (r:
        usize)
        requires
            old(self).wf(),
            old(self).is_built(),
            old_size > 0,
            new_size >= 1,
            new_size <= old_size,
            old(self).is_live(ptr, old_size),
        ensures
            final(self).wf(),
            final(self).is_built(),
            Self::shrink_core_post(*old(self), *final(self), r, ptr, old_size, new_size),
    {
        let (cur_i, nxt_i, j) = self.ptr_to_run(ptr, old_size);
        let req_ncells = self.ncells_up(new_size);
        proof {
            let csi = old(self).spec_cell_size();
            assert((new_size as int + csi - 1) / csi >= 1) by (nonlinear_arith)
                requires csi >= 1 && new_size >= 1;
        }
        if req_ncells + 1 < nxt_i - cur_i {
            let end_i = cur_i + req_ncells + 1;
            self.shrink_cells(j, cur_i, nxt_i, end_i);
        }
        ptr
    }

    /// The contract of growing one live allocation: growth happens in
    /// place exactly when the following run is a bounded free run with
    /// enough room; otherwise the block is reallocated, its first
    /// `old_size` bytes are copied, and the old block is freed — unless
    /// the new allocation fails, in which case everything is left
    /// unchanged.
    pub open spec fn grow_core_post(
        pre: MuHeap,
        post: MuHeap,
        r: usize,
        old_ptr: usize,
        old_size: usize,
        new_size: usize,
        align: usize,
    ) -> bool {
        &&& Self::same_heap_frame(pre, post)
        &&& (exists|j: int|
            {
                let end = pre.runs()[j].start + pre.spec_ncells_up(new_size as int) + 1;
                &&& #[trigger] pre.live_at(j, old_ptr, old_size)
                &&& (Self::grow_can_extend(pre, j, end) ==> {
                    &&& r == old_ptr
                    &&& post.runs() == Self::grow_extend(pre.runs(), j, end)
                    &&& post.spec_search_start() == Self::grow_cursor(
                        pre.runs(),
                        j,
                        end,
                        pre.spec_search_start(),
                    )
                    &&& post.spec_data() == pre.spec_data()
                })
                &&& (!Self::grow_can_extend(pre, j, end) ==> {
                    &&& (r == 0 ==> post == pre)
                    &&& (r != 0 ==> Self::grow_relocated(pre, post, r, old_ptr, old_size, new_size, align))
                })
            })
    }

    /// A relocating growth: the new block was placed by a first-fit
    /// allocation on the old heap, the old block was then freed, and
    /// the old contents were copied into the new block.
    pub open spec fn grow_relocated(
        pre: MuHeap,
        post: MuHeap,
        r: usize,
        old_ptr: usize,
        old_size: usize,
        new_size: usize,
        align: usize,
    ) -> bool {
        &&& (r as int) % (align as int) == 0
        &&& post.is_live(r, new_size)
        &&& (exists|mid: MuHeap|
            {
                &&& #[trigger] Self::alloc_success(pre, mid, r, new_size, align)
                &&& Self::same_heap_frame(pre, mid)
                &&& mid.spec_data() == pre.spec_data()
                &&& (exists|j2: int|
                    {
                        &&& #[trigger] mid.live_at(j2, old_ptr, old_size)
                        &&& post.runs() == Self::dealloc_merge(mid.runs(), j2)
                        &&& post.spec_search_start() == Self::dealloc_cursor(
                            mid.runs(),
                            j2,
                            mid.spec_search_start(),
                        )
                    })
            })
        &&& post.spec_data().len() == pre.spec_data().len()
        &&& (forall|i: int|
            0 <= i < post.spec_data().len() ==> post.spec_data()[i] == (if r - pre.spec_base()
                <= i < r - pre.spec_base() + old_size {
                pre.spec_data()[old_ptr - pre.spec_base() + (i - (r - pre.spec_base()))]
            } else {
                pre.spec_data()[i]
            }))
    }

    /// Grows the allocation at `old_ptr` from `old_size` to `new_size`
    /// bytes: in place when the following free run has room, otherwise
    /// by reallocating and copying.  Growing the zero-size sentinel is
    /// a fresh allocation.
    pub fn grow(&mut self, old_ptr: usize, old_size: usize, new_size: usize, align: usize) -> (r:
        usize)
        requires
            old(self).wf(),
            old(self).is_built(),
            Self::valid_align(align),
            old_size <= new_size,
            new_size as int <= old(self).spec_max_cells() * old(self).spec_cell_size(),
            old_size == 0 ==> old_ptr == align && new_size >= 1,
            old_size > 0 ==> {
                &&& old(self).is_live(old_ptr, old_size)
                &&& (old_ptr as int) % (align as int) == 0
            },
        ensures
            final(self).wf(),
            final(self).is_built(),
            old_size == 0 ==> Self::alloc_core_post(
                *old(self),
                *final(self),
                r,
                new_size,
                align,
            ),
            old_size > 0 ==> Self::grow_core_post(
                *old(self),
                *final(self),
                r,
                old_ptr,
                old_size,
                new_size,
                align,
            ),
    {
        if old_size == 0 {
            // The sentinel of a zero-size allocation: allocate afresh.
            return self.do_alloc(new_size, align);
        }
        self.do_grow(old_ptr, old_size, new_size, align)
    }

    /// In a well-formed run view, an earlier run ends at or before a
    /// later run starts.
    pub proof fn lemma_runs_ordered(rs: Seq<HeapRun>, ncells: int, i: int, j: int)
        requires
            Self::runs_wf(rs, ncells),
            0 <= i < j < rs.len(),
        ensures
            rs[i].end <= rs[j].start,
        decreases j - i,
    {
        assert(rs[i].end == rs[i + 1].start);
        if i + 1 < j {
            Self::lemma_runs_ordered(rs, ncells, i + 1, j);
        }
    }

    /// Grows the allocation at `old_ptr`, in place when the run that
    /// follows it is a bounded free run with enough room, otherwise by
    /// reallocating, copying and freeing the old block.
    #[verifier::rlimit(100)]
    fn do_grow(&mut self, old_ptr: usize, old_size: usize, new_size: usize, align: usize) -> (r:
        usize)
        requires
            old(self).wf(),
            old(self).is_built(),
            old_size > 0,
            old_size <= new_size,
            new_size as int <= old(self).spec_max_cells() * old(self).spec_cell_size(),
            old(self).is_live(old_ptr, old_size),
            Self::valid_align(align),
        ensures
            final(self).wf(),
            final(self).is_built(),
            Self::grow_core_post(
                *old(self),
                *final(self),
                r,
                old_ptr,
                old_size,
                new_size,
                align,
            ),
    {
        let ghost h0 = *old(self);
        let (cur_i, nxt_i, j) = self.ptr_to_run(old_ptr, old_size);
        let ghost b0 = h0.bounds@;
        let ghost rs0 = h0.runs();
        proof {
            Self::lemma_sorted_all(b0);
        }
        let req2 = self.ncells_up(new_size);
        proof {
            let csi = h0.spec_cell_size();
            assert((new_size as int + csi - 1) / csi >= 1) by (nonlinear_arith)
                requires csi >= 1 && new_size >= 1;
            // The capacity cap does not truncate this request.
            assert((new_size as int + csi - 1) / csi <= h0.spec_max_cells()) by (nonlinear_arith)
                requires
                    csi >= 1,
                    new_size as int <= h0.spec_max_cells() * csi,
                    h0.spec_max_cells() >= 1;
            assert(req2 as int * csi >= new_size as int) by (nonlinear_arith)
                requires csi >= 1 && req2 as int == (new_size as int + csi - 1) / csi;
        }
        let ghost end_g = rs0[j@].start + h0.spec_ncells_up(new_size as int) + 1;

        let far_link = self.cells[nxt_i].next;
        match far_link {
            HeapLink::Free(far_i) => {
                proof {
                    assert(j@ + 1 < b0.len() - 1) by {
                        if j@ + 1 == b0.len() - 1 {
                            assert(h0.cells@[b0[b0.len() - 1] as int].next == HeapLink::End);
                        }
                    }
                    let q = j@ + 1;
                    assert(Self::cells_connect(h0.cells@, b0[q], b0[q + 1]));
                    assert(far_i == b0[q + 1]);
                    assert(rs0[j@ + 1].end == far_i as int);
                    assert(rs0[j@ + 1].free);
                }
                if far_i > cur_i && req2 <= far_i - cur_i - 1 {
                    // The following free run has room: extend in place.
                    let end_i = cur_i + req2 + 1;
                    proof {
                        assert(Self::grow_can_extend(h0, j@, end_g));
                        assert(end_g == end_i as int);
                    }
                    self.grow_cells(j, cur_i, nxt_i, far_i, end_i);
                    proof {
                        assert(h0.live_at(j@, old_ptr, old_size));
                        assert(Self::grow_core_post(
                            h0,
                            *self,
                            old_ptr,
                            old_ptr,
                            old_size,
                            new_size,
                            align,
                        ));
                    }
                    return old_ptr;
                }
                proof {
                    assert(!Self::grow_can_extend(h0, j@, end_g));
                }
            },
            HeapLink::Used(_) => {
                proof {
                    assert(!rs0[j@ + 1].free);
                    assert(!Self::grow_can_extend(h0, j@, end_g));
                }
            },
            HeapLink::End => {
                proof {
                    assert(j@ + 1 == b0.len() - 1) by {
                        if j@ + 1 < b0.len() - 1 {
                            let q = j@ + 1;
                            assert(Self::cells_connect(h0.cells@, b0[q], b0[q + 1]));
                        }
                    }
                    assert(!Self::grow_can_extend(h0, j@, end_g));
                }
            },
        }

        // No adjacent room: allocate a new block, copy, free the old.
        let r = self.relocate_grow(old_ptr, old_size, new_size, align);
        proof {
            assert(h0.live_at(j@, old_ptr, old_size));
            if r == 0 {
                assert(Self::grow_core_post(h0, *self, 0, old_ptr, old_size, new_size, align));
            } else {
                assert(Self::grow_core_post(h0, *self, r, old_ptr, old_size, new_size, align));
            }
        }
        r
    }

    /// Byte-range facts for a relocating copy: both blocks lie inside
    /// the payload arena and their byte ranges are disjoint.
    #[verifier::rlimit(100)]
    proof fn lemma_relocate_ranges(
        mid: MuHeap,
        r: usize,
        old_ptr: usize,
        old_size: usize,
        new_size: usize,
        j2: int,
        kn: int,
    )
        requires
            mid.wf(),
            mid.is_built(),
            mid.live_at(j2, old_ptr, old_size),
            mid.live_at(kn, r, new_size),
            j2 != kn,
            old_size > 0,
            old_size <= new_size,
            new_size as int <= mid.spec_max_cells() * mid.spec_cell_size(),
        ensures
            mid.spec_base() < old_ptr && mid.spec_base() < r,
            old_ptr - mid.spec_base() + old_size <= mid.spec_data().len(),
            r - mid.spec_base() + old_size <= mid.spec_data().len(),
            r - mid.spec_base() + old_size <= old_ptr - mid.spec_base() || old_ptr
                - mid.spec_base() + old_size <= r - mid.spec_base(),
    {
        let csi = mid.spec_cell_size();
        let src_run = mid.runs()[j2];
        let dst_run = mid.runs()[kn];
        mid.lemma_runs_wf();
        assert((new_size as int + csi - 1) / csi >= 1) by (nonlinear_arith)
            requires csi >= 1 && new_size >= 1;
        assert((new_size as int + csi - 1) / csi <= mid.spec_max_cells()) by (nonlinear_arith)
            requires
                csi >= 1,
                new_size as int <= mid.spec_max_cells() * csi,
                mid.spec_max_cells() >= 1;
        assert((new_size as int + csi - 1) / csi * csi >= new_size as int) by (nonlinear_arith)
            requires csi >= 1 && new_size >= 0;
        assert((old_size as int + csi - 1) / csi <= (new_size as int + csi - 1) / csi) by {
            vstd::arithmetic::div_mod::lemma_div_is_ordered(
                old_size as int + csi - 1,
                new_size as int + csi - 1,
                csi,
            );
        }
        assert((old_size as int + csi - 1) / csi * csi >= old_size as int) by (nonlinear_arith)
            requires csi >= 1 && old_size >= 0;
        assert(src_run.end - src_run.start - 1 == (old_size as int + csi - 1) / csi);
        assert(dst_run.end - dst_run.start - 1 == (new_size as int + csi - 1) / csi);
        assert(old_ptr as int == mid.spec_base() + (src_run.start + 1) * csi);
        assert(r as int == mid.spec_base() + (dst_run.start + 1) * csi);
        assert((src_run.start + 1) * csi >= csi) by (nonlinear_arith)
            requires csi >= 1 && src_run.start >= 0;
        assert((dst_run.start + 1) * csi >= csi) by (nonlinear_arith)
            requires csi >= 1 && dst_run.start >= 0;
        assert((src_run.start + 1) * csi + old_size <= src_run.end * csi) by (nonlinear_arith)
            requires
                csi >= 1,
                old_size as int <= (src_run.end - src_run.start - 1) * csi,
        ;
        assert(old_size as int <= (src_run.end - src_run.start - 1) * csi) by (nonlinear_arith)
            requires
                csi >= 1,
                src_run.end - src_run.start - 1 >= (old_size as int + csi - 1) / csi,
                (old_size as int + csi - 1) / csi * csi >= old_size as int,
        ;
        assert(new_size as int <= (dst_run.end - dst_run.start - 1) * csi) by (nonlinear_arith)
            requires
                csi >= 1,
                dst_run.end - dst_run.start - 1 >= (new_size as int + csi - 1) / csi,
                (new_size as int + csi - 1) / csi * csi >= new_size as int,
        ;
        assert((dst_run.start + 1) * csi + old_size <= dst_run.end * csi) by (nonlinear_arith)
            requires
                csi >= 1,
                old_size <= new_size,
                new_size as int <= (dst_run.end - dst_run.start - 1) * csi,
        ;
        assert(src_run.end <= mid.spec_ncells() && dst_run.end <= mid.spec_ncells());
        assert(src_run.end * csi <= mid.spec_ncells() * csi) by (nonlinear_arith)
            requires csi >= 1 && src_run.end <= mid.spec_ncells();
        assert(dst_run.end * csi <= mid.spec_ncells() * csi) by (nonlinear_arith)
            requires csi >= 1 && dst_run.end <= mid.spec_ncells();
        if kn < j2 {
            Self::lemma_runs_ordered(mid.runs(), mid.spec_ncells(), kn, j2);
            assert(dst_run.end * csi <= (src_run.start + 1) * csi) by (nonlinear_arith)
                requires csi >= 1 && dst_run.end <= src_run.start + 1;
        } else {
            Self::lemma_runs_ordered(mid.runs(), mid.spec_ncells(), j2, kn);
            assert(src_run.end * csi <= (dst_run.start + 1) * csi) by (nonlinear_arith)
                requires csi >= 1 && src_run.end <= dst_run.start + 1;
        }
    }

    /// After the old block is freed, the relocated block is still live
    /// and the final view is the merge of the intermediate view.
    #[verifier::rlimit(100)]
    proof fn lemma_relocate_finish(
        mid: MuHeap,
        mid2: MuHeap,
        h2: MuHeap,
        r: usize,
        old_ptr: usize,
        old_size: usize,
        new_size: usize,
        j2: int,
        kn: int,
    )
        requires
            mid.wf(),
            mid.is_built(),
            mid2.wf(),
            mid2.is_built(),
            mid2.runs() == mid.runs(),
            mid2.spec_search_start() == mid.spec_search_start(),
            mid2.spec_base() == mid.spec_base(),
            mid2.spec_ncells() == mid.spec_ncells(),
            mid2.spec_cell_size() == mid.spec_cell_size(),
            mid.live_at(j2, old_ptr, old_size),
            mid.live_at(kn, r, new_size),
            j2 != kn,
            old_size > 0,
            Self::dealloc_core_post(mid2, h2, old_ptr, old_size),
            mid2.bounds@ == mid.bounds@,
        ensures
            h2.runs() == Self::dealloc_merge(mid.runs(), j2),
            h2.spec_search_start() == Self::dealloc_cursor(
                mid.runs(),
                j2,
                mid.spec_search_start(),
            ),
            h2.is_live(r, new_size),
    {
        let jx = choose|jx: int|
            {
                &&& #[trigger] mid2.live_at(jx, old_ptr, old_size)
                &&& h2.runs() == Self::dealloc_merge(mid2.runs(), jx)
                &&& h2.spec_search_start() == Self::dealloc_cursor(
                    mid2.runs(),
                    jx,
                    mid2.spec_search_start(),
                )
            };
        assert(mid2.live_at(jx, old_ptr, old_size));
        assert(jx == j2) by {
            Self::lemma_sorted_all(mid.bounds@);
            assert(mid2.live_at(j2, old_ptr, old_size));
            let cs = mid2.spec_cell_size();
            assert(mid2.runs()[jx].start == mid2.runs()[j2].start) by (nonlinear_arith)
                requires
                    cs >= 1,
                    mid2.spec_base() + (mid2.runs()[jx].start + 1) * cs == old_ptr as int,
                    mid2.spec_base() + (mid2.runs()[j2].start + 1) * cs == old_ptr as int,
            ;
            assert(mid.bounds@[jx] as int == mid2.runs()[jx].start);
            assert(mid.bounds@[j2] as int == mid2.runs()[j2].start);
            if jx < j2 {
                assert(mid.bounds@[jx] < mid.bounds@[j2]);
            }
            if j2 < jx {
                assert(mid.bounds@[j2] < mid.bounds@[jx]);
            }
        }
        let rsm = mid.runs();
        let lo: int = if j2 > 0 && rsm[j2 - 1].free {
            j2 - 1
        } else {
            j2
        };
        let hi: int = if j2 < rsm.len() - 1 && rsm[j2 + 1].free {
            j2 + 1
        } else {
            j2
        };
        Self::lemma_dealloc_merge_preserves(rsm, j2, kn);
        assert(kn < lo || kn > hi) by {
            assert(!rsm[kn].free);
            if kn == j2 - 1 {
                assert(lo == j2);
            }
            if kn == j2 + 1 {
                assert(hi == j2);
            }
        }
        if kn < lo {
            assert(h2.runs()[kn] == rsm[kn]);
            assert(h2.live_at(kn, r, new_size));
        } else {
            assert(h2.runs()[kn - (hi - lo)] == rsm[kn]);
            assert(h2.live_at(kn - (hi - lo), r, new_size));
        }
    }

    /// Relocating growth: places a new block first-fit, copies the old
    /// contents, and frees the old block.  When no block can be placed,
    /// nothing changes and the old block stays live.
    #[verifier::rlimit(100)]
    fn relocate_grow(&mut self, old_ptr: usize, old_size: usize, new_size: usize, align: usize) -> (r:
        usize)
        requires
            old(self).wf(),
            old(self).is_built(),
            old_size > 0,
            old_size <= new_size,
            new_size as int <= old(self).spec_max_cells() * old(self).spec_cell_size(),
            old(self).is_live(old_ptr, old_size),
            Self::valid_align(align),
        ensures
            final(self).wf(),
            final(self).is_built(),
            Self::same_heap_frame(*old(self), *final(self)),
            r == 0 ==> *final(self) == *old(self),
            r != 0 ==> Self::grow_relocated(
                *old(self),
                *final(self),
                r,
                old_ptr,
                old_size,
                new_size,
                align,
            ),
    {
        let ghost h0 = *old(self);
        let ghost rs0 = h0.runs();
        let ghost j = choose|j: int| h0.live_at(j, old_ptr, old_size);
        proof {
            assert(h0.live_at(j, old_ptr, old_size));
        }
        let r = self.do_alloc(new_size, align);
        if r == 0 {
            return 0;
        }
        let ghost mid = *self;
        let ghost steps = choose|steps: int|
            Self::alloc_success_at(h0, mid, r, new_size, align, steps);
        let ghost km = Self::scan_idx(h0.cursor_pos(), steps, rs0.len() as int);
        let ghost gg: int = if h0.spec_align_cell(rs0[km].start, align as int) > rs0[km].start {
            1int
        } else {
            0int
        };
        let ghost tt: int = if h0.spec_align_cell(rs0[km].start, align as int)
            + h0.spec_ncells_up(new_size as int) + 1 < rs0[km].end {
            1int
        } else {
            0int
        };
        let ghost j2: int = if j < km {
            j
        } else {
            j + gg + tt
        };
        let ghost kn: int = km + gg;
        proof {
            assert(Self::alloc_success_at(h0, mid, r, new_size, align, steps));
            // The old allocation's run is untouched by the new claim.
            assert(j != km) by {
                assert(rs0[km].free);
                assert(!rs0[j].free);
            }
            Self::lemma_alloc_split_preserves(
                rs0,
                km,
                h0.spec_align_cell(rs0[km].start, align as int),
                h0.spec_align_cell(rs0[km].start, align as int) + h0.spec_ncells_up(
                    new_size as int,
                ) + 1,
                j,
            );
            assert(mid.runs()[j2] == rs0[j]);
            assert(mid.live_at(j2, old_ptr, old_size));
            assert(mid.live_at(kn, r, new_size));
            assert(kn != j2) by {
                if j < km {
                    assert(j2 == j && j < km + gg);
                } else {
                    assert(j2 == j + gg + tt && j >= km + 1);
                }
            }
            Self::lemma_relocate_ranges(mid, r, old_ptr, old_size, new_size, j2, kn);
        }

        // Copy the old contents into the new block.
        let dst0 = r - self.base;
        let src0 = old_ptr - self.base;
        let mut i: usize = 0;
        while i < old_size
            invariant
                0 <= i <= old_size,
                self.cells@ == mid.cells@,
                self.bounds@ == mid.bounds@,
                self.search_start == mid.search_start,
                self.base == mid.base,
                self.ncells == mid.ncells,
                self.width == mid.width,
                self.given_base == mid.given_base,
                self.given_size == mid.given_size,
                self.data@.len() == mid.spec_data().len(),
                mid.wf(),
                mid.is_built(),
                src0 == old_ptr - mid.spec_base(),
                dst0 == r - mid.spec_base(),
                src0 + old_size <= self.data@.len(),
                dst0 + old_size <= self.data@.len(),
                dst0 + old_size <= src0 || src0 + old_size <= dst0,
                forall|q: int|
                    0 <= q < self.data@.len() ==> self.data@[q] == (if dst0 <= q < dst0 + i {
                        mid.spec_data()[src0 + (q - dst0)]
                    } else {
                        mid.spec_data()[q]
                    }),
            decreases old_size - i,
        {
            let v = self.data[src0 + i];
            proof {
                assert(v == mid.spec_data()[src0 + i as int]);
            }
            self.data.set(dst0 + i, v);
            i = i + 1;
        }
        let ghost mid2 = *self;
        proof {
            assert(mid2.wf_built()) by {
                assert(mid2.bounds@ == mid.bounds@ && mid2.cells@ == mid.cells@);
            }
            assert(mid2.runs() =~= mid.runs());
            assert(mid2.live_at(j2, old_ptr, old_size));
            assert(mid2.is_live(old_ptr, old_size));
        }

        self.do_dealloc(old_ptr, old_size, align);

        proof {
            Self::lemma_relocate_finish(
                mid,
                mid2,
                *self,
                r,
                old_ptr,
                old_size,
                new_size,
                j2,
                kn,
            );
            assert(Self::alloc_success(h0, mid, r, new_size, align));
            assert(Self::grow_relocated(h0, *self, r, old_ptr, old_size, new_size, align));
        }
        r
    }

    /// Returns a heap initializer with the region's address and size,
    /// for a declaration whose cell array is laid out on first use.
    pub fn heap(width: IndexWidth, given_base: usize, given_size: usize) -> (r: Self)
        requires
            Self::region_ok(width, given_base, given_size),
        ensures
            r.wf(),
            !r.is_built(),
            r.has_region(),
            r.spec_width() == width,
            r.spec_given() == (given_base as int, given_size as int),
    {
        Self {
            width,
            given_base,
            given_size,
            base: 0,
            ncells: 0,
            search_start: 0,
            cells: Vec::new(),
            data: Vec::new(),
            bounds: Ghost(Seq::empty()),
        }
    }

    /// Returns a no-heap initializer.  The region should be supplied
    /// later through [`MuHeap::set_heap`].
    pub fn noheap(width: IndexWidth) -> (r: Self)
        ensures
            r.wf(),
            !r.is_built(),
            !r.has_region(),
            r.spec_width() == width,
    {
        Self {
            width,
            given_base: 0,
            given_size: 0,
            base: 0,
            ncells: 0,
            search_start: 0,
            cells: Vec::new(),
            data: Vec::new(),
            bounds: Ghost(Seq::empty()),
        }
    }

    /// Supplies the region's address and size to a heap declared with
    /// no region, and lays out its cell array.
    pub fn set_heap(&mut self, given_base: usize, given_size: usize)
        requires
            old(self).wf(),
            !old(self).is_built(),
            !old(self).has_region(),
            Self::region_ok(old(self).spec_width(), given_base, given_size),
        ensures
            final(self).fresh_view(old(self).spec_width(), given_base as int, given_size as int),
            final(self).spec_given() == (given_base as int, given_size as int),
    {
        self.given_base = given_base;
        self.given_size = given_size;
        self.build_heap();
    }

    /// Lays out the cell array over the declared region: computes the
    /// adjusted base and cell count and writes the initial single
    /// terminal free run.
    fn build_heap(&mut self)
        requires
            old(self).wf(),
            !old(self).is_built(),
            Self::region_ok(old(self).spec_width(), old(self).given_base, old(self).given_size),
        ensures
            final(self).fresh_view(
                old(self).spec_width(),
                old(self).spec_given().0,
                old(self).spec_given().1,
            ),
            final(self).spec_given() == old(self).spec_given(),
    {
        let cs = self.heapcell_size();
        // The lowest allocatable address, then the lowest usable base.
        let min_addr = Self::round_up(MAX_ALIGNMENT + 1, cs);
        let min_base = min_addr - cs;
        assert(min_base == MAX_ALIGNMENT);

        let mut adj_base: usize = self.given_base;
        let mut adj_size: usize = self.given_size;
        if adj_base < min_base {
            let adjust = min_base - adj_base;
            adj_base = adj_base + adjust;
            adj_size = adj_size - adjust;
        }

        let adj_ncells = self.ncells_down(adj_size);
        assert(adj_ncells >= MIN_NCELLS) by {
            let w = self.spec_width();
            let csi = Self::width_cell_size(w);
            assert(adj_size as int / csi >= 1) by (nonlinear_arith)
                requires csi >= 1 && adj_size as int >= csi;
        }

        self.base = adj_base;
        self.ncells = adj_ncells;
        self.search_start = 0;

        proof {
            assert(adj_ncells as int * cs as int <= adj_size as int) by (nonlinear_arith)
                requires
                    cs >= 1,
                    adj_ncells as int <= adj_size as int / cs as int,
                    adj_ncells >= 0;
        }
        let nbytes: usize = adj_ncells * cs;

        let mut cells: Vec<HeapCell> = Vec::new();
        while cells.len() < adj_ncells
            invariant
                cells.len() <= adj_ncells,
            decreases adj_ncells - cells.len(),
        {
            cells.push(HeapCell { prev: HeapLink::End, next: HeapLink::End });
        }
        // The zeroth cell opens the initial terminal free run.
        cells.set(0, HeapCell { prev: HeapLink::Used(0), next: HeapLink::End });
        self.cells = cells;

        let mut data: Vec<u8> = Vec::new();
        while data.len() < nbytes
            invariant
                data.len() <= nbytes,
                forall|i: int| 0 <= i < data.len() ==> data[i] == 0,
            decreases nbytes - data.len(),
        {
            data.push(0);
        }
        self.data = data;

        let ghost initial_bounds: Seq<usize> = seq![0usize];
        self.bounds = Ghost(initial_bounds);

        proof {
            assert(self.runs() =~= seq![
                HeapRun { free: true, start: 0, end: self.spec_ncells() },
            ]);
        }
    }
}

/// The figures a walk of the cell list gathers: how many runs are in
/// use and free, how many data cells they hold, and the largest free
/// run.
pub struct HeapFigures {
    pub inuse_count: usize,
    pub inuse_ncells: usize,
    pub free_count: usize,
    pub free_ncells: usize,
    pub free_largest: usize,
}

impl HeapFigures {
    /// All-zero figures.
    pub fn zero() -> (r: Self)
        ensures
            r.inuse_count == 0,
            r.inuse_ncells == 0,
            r.free_count == 0,
            r.free_ncells == 0,
            r.free_largest == 0,
    {
        Self { inuse_count: 0, inuse_ncells: 0, free_count: 0, free_ncells: 0, free_largest: 0 }
    }

    /// Accounts one in-use run of `ncells` data cells.
    fn add_inuse(&mut self, ncells: usize)
        requires
            old(self).inuse_count + 1 <= usize::MAX,
            old(self).inuse_ncells + ncells <= usize::MAX,
        ensures
            final(self).inuse_count == old(self).inuse_count + 1,
            final(self).inuse_ncells == old(self).inuse_ncells + ncells,
            final(self).free_count == old(self).free_count,
            final(self).free_ncells == old(self).free_ncells,
            final(self).free_largest == old(self).free_largest,
    {
        self.inuse_count = self.inuse_count + 1;
        self.inuse_ncells = self.inuse_ncells + ncells;
    }

    /// Accounts one free run of `ncells` data cells; empty free runs
    /// are not counted.
    fn add_free(&mut self, ncells: usize)
        requires
            old(self).free_count + 1 <= usize::MAX,
            old(self).free_ncells + ncells <= usize::MAX,
        ensures
            final(self).inuse_count == old(self).inuse_count,
            final(self).inuse_ncells == old(self).inuse_ncells,
            ncells > 0 ==> final(self).free_count == old(self).free_count + 1,
            ncells == 0 ==> final(self).free_count == old(self).free_count,
            final(self).free_ncells == old(self).free_ncells + ncells,
            final(self).free_largest == (if old(self).free_largest < ncells {
                ncells
            } else {
                old(self).free_largest
            }),
    {
        if ncells > 0 {
            self.free_count = self.free_count + 1;
            self.free_ncells = self.free_ncells + ncells;
            if self.free_largest < ncells {
                self.free_largest = ncells;
            }
        }
    }
}

impl MuHeap {
    /// The number of non-empty free runs in a view.
    pub open spec fn spec_free_runs(rs: Seq<HeapRun>) -> int
        decreases rs.len(),
    {
        if rs.len() == 0 {
            0
        } else {
            Self::spec_free_runs(rs.drop_last()) + if rs.last().free && rs.last().end
                - rs.last().start - 1 > 0 {
                1int
            } else {
                0int
            }
        }
    }

    /// The number of data cells held by used runs.
    pub open spec fn spec_used_cells(rs: Seq<HeapRun>) -> int
        decreases rs.len(),
    {
        if rs.len() == 0 {
            0
        } else {
            Self::spec_used_cells(rs.drop_last()) + if rs.last().free {
                0int
            } else {
                rs.last().end - rs.last().start - 1
            }
        }
    }

    /// The number of data cells held by free runs.
    pub open spec fn spec_free_cells(rs: Seq<HeapRun>) -> int
        decreases rs.len(),
    {
        if rs.len() == 0 {
            0
        } else {
            Self::spec_free_cells(rs.drop_last()) + if rs.last().free {
                rs.last().end - rs.last().start - 1
            } else {
                0int
            }
        }
    }

    /// The largest free run's data-cell count.
    pub open spec fn spec_largest_free(rs: Seq<HeapRun>) -> int
        decreases rs.len(),
    {
        if rs.len() == 0 {
            0
        } else {
            let rest = Self::spec_largest_free(rs.drop_last());
            let this: int = if rs.last().free {
                rs.last().end - rs.last().start - 1
            } else {
                0
            };
            if rest < this {
                this
            } else {
                rest
            }
        }
    }

    /// Walks the whole cell list and gathers its figures.  On the bare
    /// metal this doubles as a consistency check; here the structural
    /// invariants are proved, so the walk only reports, and its report
    /// is proved exact against the run view.
    #[verifier::rlimit(100)]
    pub fn debug_check_list(&self) -> (r: HeapFigures)
        requires
            self.wf(),
            self.is_built(),
        ensures
            r.inuse_count == Self::used_count(self.runs()),
            r.free_count == Self::spec_free_runs(self.runs()),
            r.inuse_ncells == Self::spec_used_cells(self.runs()),
            r.free_ncells == Self::spec_free_cells(self.runs()),
            r.free_largest == Self::spec_largest_free(self.runs()),
    {
        let ghost b = self.bounds@;
        let ghost rs = self.runs();
        proof {
            Self::lemma_sorted_all(b);
        }
        let mut figures = HeapFigures::zero();
        let mut cur_i: usize = 0;
        let ghost mut k: int = 0;
        let mut done = false;

        while !done
            invariant
                self.wf(),
                self.is_built(),
                b == self.bounds@,
                rs == self.runs(),
                forall|i: int, j: int| 0 <= i < j < b.len() ==> b[i] < b[j],
                !done ==> 0 <= k < b.len() && b[k] == cur_i,
                done ==> k == b.len(),
                figures.inuse_count == Self::used_count(rs.take(k)),
                figures.free_count == Self::spec_free_runs(rs.take(k)),
                figures.inuse_ncells == Self::spec_used_cells(rs.take(k)),
                figures.free_ncells == Self::spec_free_cells(rs.take(k)),
                figures.free_largest == Self::spec_largest_free(rs.take(k)),
                figures.inuse_count + figures.free_count <= k,
                figures.inuse_ncells + figures.free_ncells + k <= (if done {
                    self.spec_ncells()
                } else {
                    cur_i as int
                }),
            decreases b.len() - k,
        {
            proof {
                assert(rs.take(k + 1).drop_last() =~= rs.take(k));
                assert(rs.take(k + 1).last() == rs[k]);
                assert(rs[k].start == b[k] as int);
                if k < b.len() - 1 {
                    assert(Self::cells_connect(self.cells@, b[k], b[k + 1]));
                }
            }
            let link = self.cells[cur_i].next;
            match link {
                HeapLink::Used(nxt_i) => {
                    proof {
                        assert(k < b.len() - 1) by {
                            if k == b.len() - 1 {
                                assert(self.cells@[b[b.len() - 1] as int].next == HeapLink::End);
                            }
                        }
                        assert(b[k + 1] == nxt_i);
                        assert(rs[k].end == nxt_i as int);
                        assert(!rs[k].free);
                    }
                    figures.add_inuse(nxt_i - cur_i - 1);
                    cur_i = nxt_i;
                    proof {
                        k = k + 1;
                    }
                },
                HeapLink::Free(nxt_i) => {
                    proof {
                        assert(k < b.len() - 1) by {
                            if k == b.len() - 1 {
                                assert(self.cells@[b[b.len() - 1] as int].next == HeapLink::End);
                            }
                        }
                        assert(b[k + 1] == nxt_i);
                        assert(rs[k].end == nxt_i as int);
                        assert(rs[k].free);
                    }
                    figures.add_free(nxt_i - cur_i - 1);
                    cur_i = nxt_i;
                    proof {
                        k = k + 1;
                    }
                },
                HeapLink::End => {
                    proof {
                        assert(k == b.len() - 1) by {
                            if k < b.len() - 1 {
                                assert(Self::cells_connect(self.cells@, b[k], b[k + 1]));
                            }
                        }
                        assert(rs[k].end == self.spec_ncells());
                        assert(rs[k].free);
                    }
                    figures.add_free(self.ncells - cur_i - 1);
                    done = true;
                    proof {
                        k = k + 1;
                    }
                },
            }
        }
        proof {
            assert(rs.take(b.len() as int) =~= rs);
        }
        figures
    }
}

/// A trait for the index type stored in heap cells: a small capability
/// contract of constants and conversions, satisfied by the narrow and
/// the wide index type.
pub trait MuHeapIndex: Sized + Copy {
    /// The mathematical value of the index.
    spec fn as_int(self) -> int;

    /// The largest magnitude the index type represents.
    spec fn spec_max_usize() -> usize;

    /// Returns the index zero.
    fn zero() -> (r: Self)
        ensures
            r.as_int() == 0,
    ;

    /// Returns the index one.
    fn one() -> (r: Self)
        ensures
            r.as_int() == 1,
    ;

    /// Returns the largest representable magnitude.
    fn max_usize() -> (r: usize)
        ensures
            r == Self::spec_max_usize(),
    ;

    /// Converts a platform index into this index type.
    fn from_usize(n: usize) -> (r: Self)
        requires
            n <= Self::spec_max_usize(),
        ensures
            r.as_int() == n,
    ;

    /// Converts this index into a platform index.
    fn to_usize(self) -> (r: usize)
        requires
            self.as_int() >= 0,
        ensures
            r == self.as_int(),
    ;
}

impl MuHeapIndex for i16 {
    open spec fn as_int(self) -> int {
        self as int
    }

    open spec fn spec_max_usize() -> usize {
        NARROW_MAX_CELLS
    }

    fn zero() -> (r: Self) {
        0
    }

    fn one() -> (r: Self) {
        1
    }

    fn max_usize() -> (r: usize) {
        NARROW_MAX_CELLS
    }

    fn from_usize(n: usize) -> (r: Self) {
        n as i16
    }

    fn to_usize(self) -> (r: usize) {
        self as usize
    }
}

impl MuHeapIndex for i32 {
    open spec fn as_int(self) -> int {
        self as int
    }

    open spec fn spec_max_usize() -> usize {
        WIDE_MAX_CELLS
    }

    fn zero() -> (r: Self) {
        0
    }

    fn one() -> (r: Self) {
        1
    }

    fn max_usize() -> (r: usize) {
        WIDE_MAX_CELLS
    }

    fn from_usize(n: usize) -> (r: Self) {
        n as i32
    }

    fn to_usize(self) -> (r: usize) {
        self as usize
    }
}

impl MuHeap {
    /// Disjointness: two distinct live allocations never overlap — in
    /// any well-formed run view, the cell ranges of two distinct used
    /// runs are disjoint.
    pub proof fn lemma_live_runs_disjoint(rs: Seq<HeapRun>, ncells: int, i: int, j: int)
        requires
            Self::runs_wf(rs, ncells),
            0 <= i < j < rs.len(),
            !rs[i].free,
            !rs[j].free,
        ensures
            rs[i].end <= rs[j].start,
            rs[i].start < rs[i].end,
            rs[j].start < rs[j].end,
    {
        Self::lemma_runs_ordered(rs, ncells, i, j);
    }

    /// A view with no used run is entirely free.
    proof fn lemma_used_count_zero(rs: Seq<HeapRun>)
        requires
            Self::used_count(rs) == 0,
        ensures
            forall|k: int| 0 <= k < rs.len() ==> (#[trigger] rs[k]).free,
        decreases rs.len(),
    {
        if rs.len() > 0 {
            assert(Self::used_count(rs.drop_last()) >= 0) by {
                Self::lemma_used_count_nonneg(rs.drop_last());
            }
            Self::lemma_used_count_zero(rs.drop_last());
            assert forall|k: int| 0 <= k < rs.len() implies (#[trigger] rs[k]).free by {
                if k < rs.len() - 1 {
                    assert(rs.drop_last()[k] == rs[k]);
                }
            }
        }
    }

    /// The used-run count is never negative.
    proof fn lemma_used_count_nonneg(rs: Seq<HeapRun>)
        ensures
            Self::used_count(rs) >= 0,
        decreases rs.len(),
    {
        if rs.len() > 0 {
            Self::lemma_used_count_nonneg(rs.drop_last());
        }
    }

    /// Full coalescing: once every allocation has been freed — that
    /// is, once no used run is left — a well-formed view is exactly
    /// one free run spanning the whole cell array.
    pub proof fn lemma_full_coalescing(rs: Seq<HeapRun>, ncells: int)
        requires
            Self::runs_wf(rs, ncells),
            Self::used_count(rs) == 0,
        ensures
            rs =~= seq![HeapRun { free: true, start: 0, end: ncells }],
    {
        Self::lemma_used_count_zero(rs);
        if rs.len() >= 2 {
            assert(rs[0].free && rs[1].free);
            assert(false);
        }
        assert(rs.len() == 1);
        assert(rs[0] == HeapRun { free: true, start: 0, end: ncells });
    }

    /// First-fit ordering: a successful allocation is never placed in
    /// a run that comes later in scan order than some other fitting
    /// run — whenever the run visited after `t` scan steps fits the
    /// request, the chosen run took at most `t` steps to reach.
    pub proof fn lemma_first_fit_minimal(
        pre: MuHeap,
        post: MuHeap,
        r: usize,
        size: usize,
        align: usize,
        steps: int,
        t: int,
    )
        requires
            Self::alloc_success_at(pre, post, r, size, align, steps),
            0 <= t < pre.runs().len(),
            pre.fits_at(
                Self::scan_idx(pre.cursor_pos(), t, pre.runs().len() as int),
                pre.spec_ncells_up(size as int),
                align as int,
            ),
        ensures
            steps <= t,
    {
        if steps > t {
            assert(!pre.fits_at(
                Self::scan_idx(pre.cursor_pos(), t, pre.runs().len() as int),
                pre.spec_ncells_up(size as int),
                align as int,
            ));
        }
    }

    /// Round trip: claiming cells out of a free run and then freeing
    /// exactly that claim restores the run view — and with it the
    /// in-use count — to its state before the claim.
    pub proof fn lemma_alloc_dealloc_round_trip(
        rs: Seq<HeapRun>,
        ncells: int,
        k: int,
        bgn: int,
        end: int,
    )
        requires
            Self::runs_wf(rs, ncells),
            0 <= k < rs.len(),
            rs[k].free,
            rs[k].start <= bgn,
            bgn + 2 <= end,
            end <= rs[k].end,
            k == rs.len() - 1 ==> end < rs[k].end,
        ensures
            ({
                let g: int = if bgn > rs[k].start { 1 } else { 0 };
                Self::dealloc_merge(Self::alloc_split(rs, k, bgn, end), k + g) =~= rs
            }),
    {
        let g: int = if bgn > rs[k].start { 1 } else { 0 };
        let t: int = if end < rs[k].end { 1 } else { 0 };
        let sp = Self::alloc_split(rs, k, bgn, end);
        let ju = k + g;
        assert(!sp[ju].free);
        // The run before the claim is in use, or it is the claim's own
        // leading free remainder.
        if k > 0 {
            assert(!rs[k - 1].free) by {
                if rs[k - 1].free {
                    assert(!rs[k].free);
                }
            }
        }
        let lo: int = if ju > 0 && sp[ju - 1].free { ju - 1 } else { ju };
        let hi: int = if ju < sp.len() - 1 && sp[ju + 1].free { ju + 1 } else { ju };
        assert(g == 1 ==> sp[ju - 1] == HeapRun { free: true, start: rs[k].start, end: bgn });
        assert(g == 0 && k > 0 ==> sp[ju - 1] == rs[k - 1]);
        assert(lo == k) by {
            if g == 1 {
                assert(sp[ju - 1].free);
            } else {
                if ju > 0 {
                    assert(!sp[ju - 1].free);
                }
            }
        }
        if t == 1 {
            assert(sp[ju + 1] == HeapRun { free: true, start: end, end: rs[k].end });
            assert(hi == ju + 1);
        } else {
            // The claim reached the run's end, so the run after it is
            // the old following run, which is in use.
            assert(k < rs.len() - 1);
            assert(sp[ju + 1] == rs[k + 1]);
            assert(!rs[k + 1].free);
            assert(hi == ju);
        }
        let mg = Self::dealloc_merge(sp, ju);
        assert(mg.len() == rs.len());
        assert forall|i: int| 0 <= i < mg.len() implies mg[i] == rs[i] by {
            if i < k {
                assert(mg[i] == sp[i]);
                assert(sp[i] == rs[i]);
            } else if i == k {
                assert(mg[i] == HeapRun { free: true, start: sp[lo].start, end: sp[hi].end });
                if g == 1 {
                    assert(sp[lo].start == rs[k].start);
                } else {
                    assert(sp[lo].start == bgn && bgn == rs[k].start);
                }
                if t == 1 {
                    assert(sp[hi].end == rs[k].end);
                } else {
                    assert(sp[hi].end == end && end == rs[k].end);
                }
            } else {
                assert(mg[i] == sp[i + (hi - lo)]);
                assert(hi - lo == g + t);
                assert(sp[i + g + t] == rs[i]);
            }
        }
        assert(mg =~= rs);
    }
}

} // verus!
