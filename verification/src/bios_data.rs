//! The data blocks exchanged with the firmware, and the register set
//! handed to firmware calls.
//!
//! The blocks are plain values here: the routines that fill them by
//! calling into the firmware live outside the library, and hand the
//! filled blocks in.  What the library computes from a block is stated
//! exactly.

use vstd::prelude::*;

use crate::mu_mutex::MuMutex;

verus! {

/// VBE controller information.
pub struct VbeInfoBlock {
    pub signature: [u8; 4],
    pub version: u16,
    pub oem_string_ptr: [u16; 2],
    pub capabilities: [u16; 2],
    pub video_mode_ptr: [u16; 2],
    pub total_memory: u16,
    pub oem_software_rev: u16,
    pub oem_vendor_name_ptr: [u16; 2],
    pub oem_product_name_ptr: [u16; 2],
    pub oem_product_rev_ptr: [u16; 2],
}

impl VbeInfoBlock {
    /// The capability word: two halves combined into one value, low
    /// half first.
    pub fn capabilities(&self) -> (r: u32)
        ensures
            r == (self.capabilities[0] as u32) | ((self.capabilities[1] as u32) << 16),
    {
        (self.capabilities[0] as u32) | ((self.capabilities[1] as u32) << 16)
    }
}

/// VBE mode information.
pub struct ModeInfoBlock {
    pub mode_attributes: u16,
    pub win_a_attributes: u8,
    pub win_b_attributes: u8,
    pub win_granularity: u16,
    pub win_size: u16,
    pub win_a_segment: u16,
    pub win_b_segment: u16,
    pub win_func_ptr: [u16; 2],
    pub bytes_per_scan_line: u16,
    pub x_resolution: u16,
    pub y_resolution: u16,
    pub x_char_size: u8,
    pub y_char_size: u8,
    pub number_of_planes: u8,
    pub bits_per_pixel: u8,
    pub number_of_banks: u8,
    pub memory_model: u8,
    pub bank_size: u8,
    pub number_of_image_pages: u8,
    pub phys_base_ptr: [u16; 2],
    pub lin_bytes_per_scan_line: u16,
    pub max_pixel_clock: [u16; 2],
}

/// The mode-attribute bit that marks a graphics mode.
pub const ATTR_GRAPHICS: u16 = 16;

/// The mode-attribute bit that marks linear frame buffer support.
pub const ATTR_FRAME_BUF: u16 = 128;

/// The memory-model value of a packed-pixel mode.
pub const MEM_PACKED_PIXEL: u8 = 4;

/// The memory-model value of a direct-color mode.
pub const MEM_DIRECT_COLOR: u8 = 6;

impl ModeInfoBlock {
    /// The physical frame-buffer address: two halves combined into one
    /// value, low half first.
    pub fn phys_base_ptr(&self) -> (r: u32)
        ensures
            r == (self.phys_base_ptr[0] as u32) | ((self.phys_base_ptr[1] as u32) << 16),
    {
        (self.phys_base_ptr[0] as u32) | ((self.phys_base_ptr[1] as u32) << 16)
    }
}

/// CRTC information block.
pub struct CRTCInfoBlock {
    pub horizontal_total: u16,
    pub horizontal_sync_start: u16,
    pub horizontal_sync_end: u16,
    pub vertical_total: u16,
    pub vertical_sync_start: u16,
    pub vertical_sync_end: u16,
    pub flags: u8,
    pub pixel_clock: [u8; 4],
    pub refresh_rate: [u8; 2],
}

/// One entry of the firmware's memory map: an address range and its
/// type.
#[derive(Clone, Copy)]
pub struct AddrRange {
    pub addr: u64,
    pub length: u64,
    pub atype: u32,
    pub attr: u32,
}

/// The address-range type of usable memory.
pub const TYPE_USABLE: u32 = 1;

/// The default extended attribute (its lowest bit must be set).
pub const ATTR_DEFAULT: u32 = 1;

impl AddrRange {
    /// Whether the range is usable memory.
    pub fn is_usable(&self) -> (r: bool)
        ensures
            r == (self.atype == TYPE_USABLE),
    {
        self.atype == TYPE_USABLE
    }

    /// The initial value handed to the firmware before an entry is
    /// queried: everything zero but the default attribute.
    pub fn initial_value() -> (r: Self)
        ensures
            r.addr == 0,
            r.length == 0,
            r.atype == 0,
            r.attr == ATTR_DEFAULT,
    {
        Self { addr: 0, length: 0, atype: 0, attr: ATTR_DEFAULT }
    }
}

/// The register set handed to a firmware call: a function number in,
/// the flags out, and the general registers in and out.
pub struct LmbiosRegs {
    pub fun: u16,
    pub flags: u16,
    pub eax: u32,
    pub ebx: u32,
    pub ecx: u32,
    pub edx: u32,
    pub esi: u32,
    pub edi: u32,
    pub ebp: u32,
    pub ds: u16,
    pub es: u16,
}

impl Default for LmbiosRegs {
    /// An all-zero register set.
    fn default() -> (r: Self)
        ensures
            r.fun == 0 && r.flags == 0 && r.eax == 0 && r.ebx == 0 && r.ecx == 0 && r.edx == 0
                && r.esi == 0 && r.edi == 0 && r.ebp == 0 && r.ds == 0 && r.es == 0,
    {
        LmbiosRegs {
            fun: 0,
            flags: 0,
            eax: 0,
            ebx: 0,
            ecx: 0,
            edx: 0,
            esi: 0,
            edi: 0,
            ebp: 0,
            ds: 0,
            es: 0,
        }
    }
}

/// The flags bit that reports a firmware error (the carry flag).
pub const FLAGS_CF: u16 = 1;

/// A report of how much of the firmware-call stack was used.
pub struct StackUsage {
    pub start: usize,
    pub end: usize,
    pub max: usize,
}

/// The token whose lock serializes firmware calls.
pub struct LmbiosTicket;

/// The mutex that serializes firmware calls: only one caller at a time
/// may hold the ticket.
pub struct LmbiosMutex {
    pub ticket: MuMutex<LmbiosTicket>,
}

impl LmbiosMutex {
    /// A fresh, unlocked ticket.
    pub fn ticket() -> (r: Self)
        ensures
            !r.ticket.spec_locked(),
    {
        Self { ticket: MuMutex::new(LmbiosTicket) }
    }
}

/// Packs a cylinder number and a sector number into the CX register
/// layout of a disk-read firmware call: the cylinder's low byte in the
/// high byte, its top two bits above the six-bit sector number.
pub fn cylsec_to_cx(cylinder: u16, sector: u8) -> (r: u16)
    ensures
        r == ((cylinder & 0x00ff) << 8) | ((cylinder & 0x0300) >> 2) | (sector as u16),
{
    ((cylinder & 0x00ff) << 8) | ((cylinder & 0x0300) >> 2) | (sector as u16)
}

/// Whether a memory-map entry can back a heap of `size` bytes at or
/// above `lowest_addr`.
pub open spec fn spec_region_fits(e: AddrRange, lowest_addr: u64, size: usize) -> bool {
    &&& e.atype == TYPE_USABLE
    &&& e.addr >= lowest_addr
    &&& e.length >= size
}

/// Picks the heap region out of a firmware memory map: the first usable
/// entry at or above `lowest_addr` that holds `size` bytes.  Returns
/// its base address.
pub fn find_usable_region(ranges: &Vec<AddrRange>, lowest_addr: u64, size: usize) -> (r: Option<
    u64,
>)
    ensures
        r matches Some(base) ==> exists|i: int|
            {
                &&& 0 <= i < ranges@.len()
                &&& #[trigger] spec_region_fits(ranges@[i], lowest_addr, size)
                &&& base == ranges@[i].addr
                &&& forall|k: int|
                    0 <= k < i ==> !spec_region_fits(#[trigger] ranges@[k], lowest_addr, size)
            },
        r is None ==> forall|k: int|
            0 <= k < ranges@.len() ==> !spec_region_fits(
                #[trigger] ranges@[k],
                lowest_addr,
                size,
            ),
{
    let mut i: usize = 0;
    while i < ranges.len()
        invariant
            0 <= i <= ranges@.len(),
            forall|k: int|
                0 <= k < i ==> !spec_region_fits(#[trigger] ranges@[k], lowest_addr, size),
        decreases ranges@.len() - i,
    {
        let e = &ranges[i];
        if e.atype == TYPE_USABLE && e.addr >= lowest_addr && e.length >= size as u64 {
            proof {
                assert(spec_region_fits(ranges@[i as int], lowest_addr, size));
            }
            return Some(e.addr);
        }
        i = i + 1;
    }
    None
}

} // verus!
