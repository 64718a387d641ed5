//! Video-mode selection over the VESA BIOS extensions.
//!
//! The firmware hands back controller and mode information blocks; the
//! logic here reduces them to plain records and picks the mode closest
//! to a desired width, height and colour depth: an exact match wins
//! immediately, otherwise the smallest squared distance in resolution
//! wins, with the smallest depth difference as the tie-break, earliest
//! candidate first.

use vstd::prelude::*;

use crate::bios_data::{
    ModeInfoBlock, VbeInfoBlock, ATTR_FRAME_BUF, ATTR_GRAPHICS, MEM_DIRECT_COLOR, MEM_PACKED_PIXEL,
};

verus! {

/// The largest width, height or depth the mode selection accepts, so
/// that the squared-distance arithmetic cannot overflow.
pub const MAX_DIMENSION: u16 = 0x4000;

/// One video mode, reduced to the fields the selection logic reads.
#[derive(Clone, Copy)]
pub struct ModeInfo {
    pub mode: u16,
    pub attributes: u16,
    pub width: u16,
    pub height: u16,
    pub bpp: u8,
    pub memory_model: u8,
    pub phy_base: u32,
}

impl ModeInfo {
    /// Reduces a firmware mode-information block to a plain record.
    pub fn from_mode_info_block(mode: u16, mib: &ModeInfoBlock) -> (r: Self)
        ensures
            r.mode == mode,
            r.attributes == mib.mode_attributes,
            r.width == mib.x_resolution,
            r.height == mib.y_resolution,
            r.bpp == mib.bits_per_pixel,
            r.memory_model == mib.memory_model,
            r.phy_base == (mib.phys_base_ptr[0] as u32) | ((mib.phys_base_ptr[1] as u32) << 16),
    {
        Self {
            mode,
            attributes: mib.mode_attributes,
            width: mib.x_resolution,
            height: mib.y_resolution,
            bpp: mib.bits_per_pixel,
            memory_model: mib.memory_model,
            phy_base: mib.phys_base_ptr(),
        }
    }

    /// Whether the mode is a graphics mode.
    pub fn is_graphics_mode(&self) -> (r: bool)
        ensures
            r == ((self.attributes & ATTR_GRAPHICS) != 0),
    {
        (self.attributes & ATTR_GRAPHICS) != 0
    }

    /// Whether the mode offers a linear frame buffer.
    pub fn has_linear_frame_buffer_mode(&self) -> (r: bool)
        ensures
            r == ((self.attributes & ATTR_FRAME_BUF) != 0),
    {
        (self.attributes & ATTR_FRAME_BUF) != 0
    }

    /// Whether the mode uses the packed-pixel memory model.
    pub fn is_packed_pixel(&self) -> (r: bool)
        ensures
            r == (self.memory_model == MEM_PACKED_PIXEL),
    {
        self.memory_model == MEM_PACKED_PIXEL
    }

    /// Whether the mode uses the direct-color memory model.
    pub fn is_direct_color(&self) -> (r: bool)
        ensures
            r == (self.memory_model == MEM_DIRECT_COLOR),
    {
        self.memory_model == MEM_DIRECT_COLOR
    }

    /// Whether the mode takes part in the selection at all: a graphics
    /// mode with a linear frame buffer, packed-pixel or direct-color.
    pub open spec fn spec_eligible(self) -> bool {
        &&& (self.attributes & ATTR_GRAPHICS) != 0
        &&& (self.attributes & ATTR_FRAME_BUF) != 0
        &&& (self.memory_model == MEM_PACKED_PIXEL || self.memory_model == MEM_DIRECT_COLOR)
    }
}

/// A string read out of the firmware's data area, with the far pointer
/// it came from.
pub struct VbeString {
    pub segment: u16,
    pub offset: u16,
    pub string: Vec<u8>,
}

impl VbeString {
    /// Wraps the bytes read from a far pointer, keeping the pointer's
    /// halves (offset first, segment second).
    pub fn new_in(far_ptr: [u16; 2], string: Vec<u8>) -> (r: Self)
        ensures
            r.offset == far_ptr[0],
            r.segment == far_ptr[1],
            r.string@ == string@,
    {
        Self { segment: far_ptr[1], offset: far_ptr[0], string }
    }
}

/// Controller information reduced to plain values, with the mode list
/// already read out of the firmware's data area.
pub struct VbeInfo {
    pub version: u16,
    pub capabilities: u32,
    pub total_memory: u32,
    pub mode_list: Vec<ModeInfo>,
    pub oem_software_rev: u16,
    pub oem_string: VbeString,
    pub oem_vendor_name: VbeString,
    pub oem_product_name: VbeString,
    pub oem_product_rev: VbeString,
}

/// The squared distance between a desired and an offered resolution.
pub open spec fn spec_size_diff(dx: int, dy: int, x: int, y: int) -> int {
    (dx - x) * (dx - x) + (dy - y) * (dy - y)
}

/// The absolute difference between a desired and an offered depth.
pub open spec fn spec_bpp_diff(da: int, a: int) -> int {
    if da >= a {
        da - a
    } else {
        a - da
    }
}

/// The selection state carried along the scan of a mode list: the best
/// mode seen so far and the measures it scored.
pub ghost struct BestMode {
    pub mode: int,
    pub size_diff: int,
    pub bpp_diff: int,
}

/// One step of the selection: how an eligible candidate updates the
/// best mode seen so far, when it is not an exact match.
pub open spec fn spec_better(st: BestMode, m: ModeInfo, w: int, h: int, bpp: int) -> BestMode {
    let sd = spec_size_diff(w, h, m.width as int, m.height as int);
    let bd = spec_bpp_diff(bpp, m.bpp as int);
    if sd < st.size_diff {
        BestMode { mode: m.mode as int, size_diff: sd, bpp_diff: bd }
    } else if sd == st.size_diff && bd < st.bpp_diff {
        BestMode { mode: m.mode as int, size_diff: st.size_diff, bpp_diff: bd }
    } else {
        st
    }
}

/// The whole selection, from position `i` on: an exact match stops the
/// scan; other eligible candidates update the running best.
pub open spec fn spec_best_from(
    modes: Seq<ModeInfo>,
    w: int,
    h: int,
    bpp: int,
    i: int,
    st: BestMode,
) -> int
    decreases modes.len() - i,
{
    if i < 0 || i >= modes.len() {
        st.mode
    } else {
        let m = modes[i];
        if !m.spec_eligible() {
            spec_best_from(modes, w, h, bpp, i + 1, st)
        } else if m.width == w && m.height == h && m.bpp == bpp {
            m.mode as int
        } else {
            spec_best_from(modes, w, h, bpp, i + 1, spec_better(st, m, w, h, bpp))
        }
    }
}

/// The state the selection starts from: no mode seen, the worst
/// possible measures.
pub open spec fn spec_best_init() -> BestMode {
    BestMode { mode: 0xffff, size_diff: i32::MAX as int, bpp_diff: u8::MAX as int }
}

impl VbeInfo {
    /// Reduces a firmware controller block to plain values, taking the
    /// mode list and the strings that were read through the block's
    /// far pointers.
    pub fn from_vbe_info_block(
        vib: &VbeInfoBlock,
        mode_list: Vec<ModeInfo>,
        oem_string: VbeString,
        oem_vendor_name: VbeString,
        oem_product_name: VbeString,
        oem_product_rev: VbeString,
    ) -> (r: Self)
        ensures
            r.version == vib.version,
            r.capabilities == (vib.capabilities[0] as u32) | ((vib.capabilities[1] as u32) << 16),
            r.total_memory == (vib.total_memory as u32) << 16,
            r.mode_list@ == mode_list@,
            r.oem_software_rev == vib.oem_software_rev,
    {
        Self {
            version: vib.version,
            capabilities: vib.capabilities(),
            total_memory: (vib.total_memory as u32) << 16,
            mode_list,
            oem_software_rev: vib.oem_software_rev,
            oem_string,
            oem_vendor_name,
            oem_product_name,
            oem_product_rev,
        }
    }

    /// Picks the mode closest to the desired width, height and depth:
    /// an exact match among the eligible modes wins at once; otherwise
    /// the smallest squared resolution distance wins, the smallest
    /// depth difference breaking ties, earliest candidate first.
    /// Returns the no-mode value when no mode is eligible.
    pub fn find_best_mode(&self, width: u16, height: u16, bpp: u8) -> (r: u16)
        requires
            width <= MAX_DIMENSION,
            height <= MAX_DIMENSION,
            forall|i: int|
                0 <= i < self.mode_list@.len() ==> (#[trigger] self.mode_list@[i]).width
                    <= MAX_DIMENSION && self.mode_list@[i].height <= MAX_DIMENSION,
        ensures
            r == spec_best_from(
                self.mode_list@,
                width as int,
                height as int,
                bpp as int,
                0,
                spec_best_init(),
            ),
    {
        let modes = &self.mode_list;
        let mut best_mode: u16 = 0xffff;
        let mut min_size_diff: i32 = i32::MAX;
        let mut min_bpp_diff: u8 = u8::MAX;
        let mut i: usize = 0;

        while i < modes.len()
            invariant
                modes == &self.mode_list,
                width <= MAX_DIMENSION,
                height <= MAX_DIMENSION,
                forall|k: int|
                    0 <= k < modes@.len() ==> (#[trigger] modes@[k]).width <= MAX_DIMENSION
                        && modes@[k].height <= MAX_DIMENSION,
                0 <= i <= modes@.len(),
                spec_best_from(
                    modes@,
                    width as int,
                    height as int,
                    bpp as int,
                    0,
                    spec_best_init(),
                ) == spec_best_from(
                    modes@,
                    width as int,
                    height as int,
                    bpp as int,
                    i as int,
                    BestMode {
                        mode: best_mode as int,
                        size_diff: min_size_diff as int,
                        bpp_diff: min_bpp_diff as int,
                    },
                ),
            decreases modes@.len() - i,
        {
            let m = modes[i];
            let eligible = {
                let g = m.is_graphics_mode();
                let f = m.has_linear_frame_buffer_mode();
                let p = m.is_packed_pixel();
                let d = m.is_direct_color();
                g && f && (p || d)
            };
            if eligible {
                if m.width == width && m.height == height && m.bpp == bpp {
                    return m.mode;
                }
                let x_diff = (width as i32) - (m.width as i32);
                let y_diff = (height as i32) - (m.height as i32);
                proof {
                    assert(x_diff * x_diff <= 0x4000 * 0x4000 && x_diff * x_diff >= 0)
                        by (nonlinear_arith)
                        requires -0x4000 <= x_diff <= 0x4000;
                    assert(y_diff * y_diff <= 0x4000 * 0x4000 && y_diff * y_diff >= 0)
                        by (nonlinear_arith)
                        requires -0x4000 <= y_diff <= 0x4000;
                }
                let size_diff = x_diff * x_diff + y_diff * y_diff;
                let bpp_diff = if bpp >= m.bpp {
                    bpp - m.bpp
                } else {
                    m.bpp - bpp
                };
                if size_diff < min_size_diff {
                    min_size_diff = size_diff;
                    min_bpp_diff = bpp_diff;
                    best_mode = m.mode;
                } else if size_diff == min_size_diff {
                    if bpp_diff < min_bpp_diff {
                        min_bpp_diff = bpp_diff;
                        best_mode = m.mode;
                    }
                }
            }
            i = i + 1;
        }
        best_mode
    }
}

/// The running state of a mode search: the desired size and depth, and
/// the best mode seen so far with its measures.
pub struct DesiredSize {
    pub x: u16,
    pub y: u16,
    pub bpp: u8,
    pub best_mode: u16,
    pub min_size_diff: i32,
    pub min_bpp_diff: u8,
}

impl DesiredSize {
    /// A fresh search for the desired width, height and depth: no mode
    /// examined yet, the worst possible measures.
    pub fn new(x: u16, y: u16, bpp: u8) -> (r: Self)
        ensures
            r.x == x,
            r.y == y,
            r.bpp == bpp,
            r.best_mode == 0xffff,
            r.min_size_diff == i32::MAX,
            r.min_bpp_diff == u8::MAX,
    {
        Self { x, y, bpp, best_mode: 0xffff, min_size_diff: i32::MAX, min_bpp_diff: u8::MAX }
    }

    /// The squared distance of an offered resolution from the desired
    /// one.
    pub fn size_diff(&self, x: u16, y: u16) -> (r: i32)
        requires
            self.x <= MAX_DIMENSION,
            self.y <= MAX_DIMENSION,
            x <= MAX_DIMENSION,
            y <= MAX_DIMENSION,
        ensures
            r == spec_size_diff(self.x as int, self.y as int, x as int, y as int),
    {
        let x_diff = (self.x as i32) - (x as i32);
        let y_diff = (self.y as i32) - (y as i32);
        proof {
            assert(x_diff * x_diff <= 0x4000 * 0x4000 && x_diff * x_diff >= 0) by (nonlinear_arith)
                requires -0x4000 <= x_diff <= 0x4000;
            assert(y_diff * y_diff <= 0x4000 * 0x4000 && y_diff * y_diff >= 0) by (nonlinear_arith)
                requires -0x4000 <= y_diff <= 0x4000;
        }
        x_diff * x_diff + y_diff * y_diff
    }

    /// The absolute difference of an offered depth from the desired
    /// one.
    pub fn bpp_diff(&self, bpp: u8) -> (r: u8)
        ensures
            r == spec_bpp_diff(self.bpp as int, bpp as int),
    {
        if self.bpp >= bpp {
            self.bpp - bpp
        } else {
            bpp - self.bpp
        }
    }

    /// Examines one candidate mode.  An exact match settles the search
    /// and returns true; otherwise the candidate replaces the best mode
    /// when its measures are better, and the search goes on.
    pub fn does_match(&mut self, mode: u16, x: u16, y: u16, bpp: u8) -> (r: bool)
        requires
            old(self).x <= MAX_DIMENSION,
            old(self).y <= MAX_DIMENSION,
            x <= MAX_DIMENSION,
            y <= MAX_DIMENSION,
        ensures
            final(self).x == old(self).x,
            final(self).y == old(self).y,
            final(self).bpp == old(self).bpp,
            r == (old(self).x == x && old(self).y == y && old(self).bpp == bpp),
            r ==> final(self).best_mode == mode && final(self).min_size_diff == 0 && final(self).min_bpp_diff == 0,
            !r ==> ({
                let st = spec_better(
                    BestMode {
                        mode: old(self).best_mode as int,
                        size_diff: old(self).min_size_diff as int,
                        bpp_diff: old(self).min_bpp_diff as int,
                    },
                    ModeInfo {
                        mode,
                        attributes: 0,
                        width: x,
                        height: y,
                        bpp,
                        memory_model: 0,
                        phy_base: 0,
                    },
                    old(self).x as int,
                    old(self).y as int,
                    old(self).bpp as int,
                );
                &&& final(self).best_mode == st.mode
                &&& final(self).min_size_diff == st.size_diff
                &&& final(self).min_bpp_diff == st.bpp_diff
            }),
    {
        if self.x == x && self.y == y && self.bpp == bpp {
            self.min_size_diff = 0;
            self.min_bpp_diff = 0;
            self.best_mode = mode;
            true
        } else {
            let size_diff = self.size_diff(x, y);
            let bpp_diff = self.bpp_diff(bpp);
            if size_diff < self.min_size_diff {
                self.min_size_diff = size_diff;
                self.min_bpp_diff = bpp_diff;
                self.best_mode = mode;
            } else if size_diff == self.min_size_diff {
                if bpp_diff < self.min_bpp_diff {
                    self.min_bpp_diff = bpp_diff;
                    self.best_mode = mode;
                }
            }
            false
        }
    }

    /// The best mode seen so far.
    pub fn get_best_mode(&self) -> (r: u16)
        ensures
            r == self.best_mode,
    {
        self.best_mode
    }
}

} // verus!
