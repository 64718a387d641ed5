// Tests for the far-pointer arithmetic, the video-mode selection, the
// firmware data blocks and the text writer.

use nostd_env::bios_data::{cylsec_to_cx, find_usable_region, AddrRange, LmbiosRegs, ModeInfoBlock,
    VbeInfoBlock};
use nostd_env::text_writer::TextWriter;
use nostd_env::vbe::{DesiredSize, ModeInfo, VbeInfo, VbeString};
use nostd_env::x86_far_ptr::X86FarPtr;

#[test]
fn far_ptr_null_and_from_array() {
    let n = X86FarPtr::null();
    assert_eq!(n.segment, 0);
    assert_eq!(n.offset, 0);
    let p = X86FarPtr::from_array([0x0123, 0xabcd]);
    assert_eq!(p.offset, 0x0123);
    assert_eq!(p.segment, 0xabcd);
}

#[test]
fn far_ptr_linear_round_trip() {
    let p = X86FarPtr::from_linear_addr(0x9_8765).unwrap();
    assert_eq!(p.offset, 0x5);
    assert_eq!(p.segment, 0x9876);
    assert_eq!(p.to_linear_addr(), 0x9_8765);
    assert!(X86FarPtr::from_linear_addr(0x10_0000).is_none());
    assert!(X86FarPtr::from_linear_addr(0xf_ffff).is_some());
}

#[test]
fn far_ptr_to_linear_combines_bits() {
    let p = X86FarPtr { offset: 0x10, segment: 1 };
    // The segment is shifted and combined bitwise, not added.
    assert_eq!(p.to_linear_addr(), 0x10);
}

fn mode(modenum: u16, w: u16, h: u16, bpp: u8, model: u8, attrs: u16) -> ModeInfo {
    ModeInfo {
        mode: modenum,
        attributes: attrs,
        width: w,
        height: h,
        bpp,
        memory_model: model,
        phy_base: 0,
    }
}

#[test]
fn best_mode_prefers_exact_match() {
    let list = vec![
        mode(0x100, 640, 480, 8, 4, 0x90),
        mode(0x101, 1280, 1024, 24, 6, 0x90),
        mode(0x102, 1024, 768, 24, 6, 0x90),
    ];
    let info = sample_info(list);
    assert_eq!(info.find_best_mode(1280, 1024, 24), 0x101);
}

#[test]
fn best_mode_takes_nearest_size_then_bpp() {
    let list = vec![
        mode(0x100, 640, 480, 8, 4, 0x90),
        mode(0x101, 800, 600, 16, 6, 0x90),
        mode(0x102, 800, 600, 24, 6, 0x90),
    ];
    let info = sample_info(list);
    // 820x620 is closest to 800x600; depth 24 breaks the tie.
    assert_eq!(info.find_best_mode(820, 620, 24), 0x102);
}

#[test]
fn best_mode_skips_ineligible_modes() {
    let list = vec![
        // Exact size but not a linear-frame-buffer graphics mode.
        mode(0x100, 800, 600, 24, 6, 0x10),
        mode(0x101, 640, 480, 24, 6, 0x90),
    ];
    let info = sample_info(list);
    assert_eq!(info.find_best_mode(800, 600, 24), 0x101);
}

#[test]
fn best_mode_with_no_candidates_is_none_value() {
    let info = sample_info(Vec::new());
    assert_eq!(info.find_best_mode(800, 600, 24), 0xffff);
}

fn sample_info(list: Vec<ModeInfo>) -> VbeInfo {
    let vib = VbeInfoBlock {
        signature: [0x56, 0x45, 0x53, 0x41],
        version: 0x300,
        oem_string_ptr: [0, 0],
        capabilities: [1, 2],
        video_mode_ptr: [0, 0],
        total_memory: 0x80,
        oem_software_rev: 7,
        oem_vendor_name_ptr: [0, 0],
        oem_product_name_ptr: [0, 0],
        oem_product_rev_ptr: [0, 0],
    };
    let s = |bytes: &[u8]| VbeString::new_in([0, 0], bytes.to_vec());
    VbeInfo::from_vbe_info_block(&vib, list, s(b"oem"), s(b"vendor"), s(b"product"), s(b"rev"))
}

#[test]
fn vbe_info_combines_block_fields() {
    let info = sample_info(Vec::new());
    assert_eq!(info.version, 0x300);
    assert_eq!(info.capabilities, 0x0002_0001);
    assert_eq!(info.total_memory, 0x0080_0000);
    assert_eq!(info.oem_software_rev, 7);
    assert_eq!(info.oem_vendor_name.string, b"vendor".to_vec());
}

#[test]
fn desired_size_matcher() {
    let mut d = DesiredSize::new(800, 600, 24);
    assert!(!d.does_match(0x100, 640, 480, 8));
    assert_eq!(d.get_best_mode(), 0x100);
    assert!(!d.does_match(0x101, 800, 600, 16));
    assert_eq!(d.get_best_mode(), 0x101);
    // Same size, strictly closer depth: wins the tie-break.
    assert!(!d.does_match(0x102, 800, 600, 22));
    assert_eq!(d.get_best_mode(), 0x102);
    // Same size, same depth difference: the earlier candidate stays.
    assert!(!d.does_match(0x104, 800, 600, 26));
    assert_eq!(d.get_best_mode(), 0x102);
    // An exact match ends the search.
    assert!(d.does_match(0x103, 800, 600, 24));
    assert_eq!(d.get_best_mode(), 0x103);
}

#[test]
fn mode_info_predicates_and_reduction() {
    let m = mode(0x115, 800, 600, 24, 6, 0x90);
    assert!(m.is_graphics_mode());
    assert!(m.has_linear_frame_buffer_mode());
    assert!(!m.is_packed_pixel());
    assert!(m.is_direct_color());
    let m2 = mode(0x115, 800, 600, 24, 4, 0x10);
    assert!(m2.is_graphics_mode());
    assert!(!m2.has_linear_frame_buffer_mode());
    assert!(m2.is_packed_pixel());
}

#[test]
fn mode_info_block_phys_base() {
    let mut mib = sample_mib();
    mib.phys_base_ptr = [0x5678, 0x1234];
    assert_eq!(mib.phys_base_ptr(), 0x1234_5678);
    let m = ModeInfo::from_mode_info_block(0x117, &mib);
    assert_eq!(m.mode, 0x117);
    assert_eq!(m.width, 1024);
    assert_eq!(m.height, 768);
    assert_eq!(m.bpp, 16);
    assert_eq!(m.phy_base, 0x1234_5678);
}

fn sample_mib() -> ModeInfoBlock {
    ModeInfoBlock {
        mode_attributes: 0x90,
        win_a_attributes: 0,
        win_b_attributes: 0,
        win_granularity: 64,
        win_size: 64,
        win_a_segment: 0xa000,
        win_b_segment: 0,
        win_func_ptr: [0, 0],
        bytes_per_scan_line: 2048,
        x_resolution: 1024,
        y_resolution: 768,
        x_char_size: 8,
        y_char_size: 16,
        number_of_planes: 1,
        bits_per_pixel: 16,
        number_of_banks: 1,
        memory_model: 6,
        bank_size: 0,
        number_of_image_pages: 1,
        phys_base_ptr: [0, 0],
        lin_bytes_per_scan_line: 2048,
        max_pixel_clock: [0, 0],
    }
}

#[test]
fn cylsec_packs_register_layout() {
    assert_eq!(cylsec_to_cx(0, 1), 0x0001);
    assert_eq!(cylsec_to_cx(0x12, 0x34), 0x1234);
    assert_eq!(cylsec_to_cx(0x3ff, 0x3f), 0xffff);
    assert_eq!(cylsec_to_cx(0x300, 0), 0x00c0);
}

#[test]
fn usable_region_is_first_fitting_entry() {
    let ranges = vec![
        AddrRange { addr: 0x1000, length: 0x10000, atype: 1, attr: 1 },
        AddrRange { addr: 0x100000, length: 0x1000, atype: 2, attr: 1 },
        AddrRange { addr: 0x200000, length: 0x100000, atype: 1, attr: 1 },
        AddrRange { addr: 0x400000, length: 0x200000, atype: 1, attr: 1 },
    ];
    // The first entry is below the floor, the second is not usable.
    assert_eq!(find_usable_region(&ranges, 0x100000, 0x80000), Some(0x200000));
    assert_eq!(find_usable_region(&ranges, 0x100000, 0x180000), Some(0x400000));
    assert_eq!(find_usable_region(&ranges, 0x100000, 0x400000), None);
    assert!(ranges[0].is_usable());
    assert!(!ranges[1].is_usable());
}

#[test]
fn addr_range_initial_value() {
    let e = AddrRange::initial_value();
    assert_eq!(e.addr, 0);
    assert_eq!(e.length, 0);
    assert_eq!(e.atype, 0);
    assert_eq!(e.attr, 1);
}

#[test]
fn lmbios_regs_default_is_zero() {
    let r = LmbiosRegs::default();
    assert_eq!(r.fun, 0);
    assert_eq!(r.eax, 0);
    assert_eq!(r.es, 0);
}

#[test]
fn vbe_info_block_capabilities() {
    let mut vib = VbeInfoBlock {
        signature: [0, 0, 0, 0],
        version: 0,
        oem_string_ptr: [0, 0],
        capabilities: [0xbeef, 0xdead],
        video_mode_ptr: [0, 0],
        total_memory: 0,
        oem_software_rev: 0,
        oem_vendor_name_ptr: [0, 0],
        oem_product_name_ptr: [0, 0],
        oem_product_rev_ptr: [0, 0],
    };
    assert_eq!(vib.capabilities(), 0xdead_beef);
    vib.capabilities = [1, 0];
    assert_eq!(vib.capabilities(), 1);
}

#[test]
fn text_writer_sanitizes_output() {
    let mut w = TextWriter::new();
    w.write_ascii_printables("He110!\r\n\x01\x7f~");
    assert_eq!(w.output, b"He110!\r\n..~".to_vec());
}

#[test]
fn vbe_string_keeps_pointer_halves() {
    let s = VbeString::new_in([0x34, 0x12], b"abc".to_vec());
    assert_eq!(s.offset, 0x34);
    assert_eq!(s.segment, 0x12);
    assert_eq!(s.string, b"abc".to_vec());
}
