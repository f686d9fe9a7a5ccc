//! The ELF segment loader: contents, zero tails, permissions, rejections.

use ceno_boot::elf::{ElfImage, Segment, ELF_CLASS_32, EM_RISCV, ET_EXEC, PT_LOAD, PF_R, PF_W,
    PF_X};
use ceno_boot::loader::{load, LoadError};
use ceno_boot::os::{lookup, read_mapped_byte};
use ceno_boot::phys::PhysMem;
use ceno_boot::pte::{PTE_R, PTE_W, PTE_X, PTE_U};

fn fresh_space() -> (PhysMem, usize) {
    let mut m = PhysMem::new(0x10_0000);
    let _root_pa = m.allocate_table();
    (m, 0)
}

fn one_segment(vaddr: u64, offset: u64, file_size: u64, mem_size: u64, flags: u32) -> Segment {
    Segment { seg_type: PT_LOAD, vaddr, paddr: vaddr, offset, file_size, mem_size, flags }
}

fn image_of(seg: Segment, entry: u64) -> ElfImage {
    ElfImage {
        entry,
        class: ELF_CLASS_32,
        machine: EM_RISCV,
        elf_type: ET_EXEC,
        segments: vec![seg],
    }
}

#[test]
fn scenario_single_segment_image() {
    // a synthetic single-segment image: 4096 bytes of 0xAA at 0x1000,
    // readable and executable
    let (mut m, root) = fresh_space();
    let elf = image_of(one_segment(0x1000, 0, 4096, 4096, PF_R | PF_X), 0x1000);
    let image = vec![0xAAu8; 4096];
    let before = m.page_count();
    let r = load(&elf, &image, &mut m, root);
    assert_eq!(r, Ok(0x1000));
    for off in [0u64, 1, 255, 4095] {
        assert_eq!(read_mapped_byte(&m, root, 0x1000 + off), Some(0xAA));
    }
    let (_pa, perm) = lookup(&m, root, 0x1000).unwrap();
    assert_eq!(perm, PTE_U | PTE_R | PTE_X);
    // the guard-band policy backs the segment with mem_size / 4096 + 1 pages:
    // the content page, one zero guard page, and one second-level table
    assert_eq!(m.page_count(), before + 3);
    assert_eq!(read_mapped_byte(&m, root, 0x2000), Some(0));
}

#[test]
fn zero_fill_beyond_file_size() {
    // file_size < mem_size: the tail reads zero after loading
    let (mut m, root) = fresh_space();
    let elf = image_of(one_segment(0x8000, 2, 16, 100, PF_R | PF_W), 0x8000);
    let mut image = vec![0u8; 64];
    for (i, b) in image.iter_mut().enumerate() {
        *b = i as u8;
    }
    let r = load(&elf, &image, &mut m, root);
    assert_eq!(r, Ok(0x8000));
    // bytes within the file window come from the image, offset by 2
    assert_eq!(read_mapped_byte(&m, root, 0x8000), Some(2));
    assert_eq!(read_mapped_byte(&m, root, 0x800F), Some(17));
    // bytes from file_size up to mem_size and beyond read zero
    assert_eq!(read_mapped_byte(&m, root, 0x8010), Some(0));
    assert_eq!(read_mapped_byte(&m, root, 0x8063), Some(0));
    assert_eq!(read_mapped_byte(&m, root, 0x8FFF), Some(0));
    let (_pa, perm) = lookup(&m, root, 0x8000).unwrap();
    assert_eq!(perm, PTE_U | PTE_R | PTE_W);
}

#[test]
fn guard_band_page_count_for_unaligned_size() {
    // the page count is mem_size / 4096 + 1: a 100-byte segment takes one
    // page, a 4096-byte segment takes two (its guard page)
    let (mut m, root) = fresh_space();
    let elf = image_of(one_segment(0x4000, 0, 100, 100, PF_R), 0x4000);
    let image = vec![7u8; 100];
    let before = m.page_count();
    assert_eq!(load(&elf, &image, &mut m, root), Ok(0x4000));
    // one content page and one second-level table
    assert_eq!(m.page_count(), before + 2);
    assert_eq!(read_mapped_byte(&m, root, 0x4063), Some(7));
    assert_eq!(read_mapped_byte(&m, root, 0x4064), Some(0));
    assert_eq!(read_mapped_byte(&m, root, 0x4FFF), Some(0));
    assert_eq!(read_mapped_byte(&m, root, 0x5000), None);
}

#[test]
fn wrong_class_is_rejected() {
    let (mut m, root) = fresh_space();
    let mut elf = image_of(one_segment(0x1000, 0, 16, 16, PF_R), 0x1000);
    elf.class = 2;
    let image = vec![0u8; 16];
    assert_eq!(load(&elf, &image, &mut m, root), Err(LoadError::WrongClass));
}

#[test]
fn wrong_machine_is_rejected() {
    let (mut m, root) = fresh_space();
    let mut elf = image_of(one_segment(0x1000, 0, 16, 16, PF_R), 0x1000);
    elf.machine = 62;
    let image = vec![0u8; 16];
    assert_eq!(load(&elf, &image, &mut m, root), Err(LoadError::WrongMachine));
}

#[test]
fn wrong_type_is_rejected() {
    let (mut m, root) = fresh_space();
    let mut elf = image_of(one_segment(0x1000, 0, 16, 16, PF_R), 0x1000);
    elf.elf_type = 3;
    let image = vec![0u8; 16];
    assert_eq!(load(&elf, &image, &mut m, root), Err(LoadError::WrongType));
}

#[test]
fn unaligned_segment_is_rejected() {
    let (mut m, root) = fresh_space();
    let elf = image_of(one_segment(0x1234, 0, 16, 16, PF_R), 0x1234);
    let image = vec![0u8; 16];
    assert_eq!(load(&elf, &image, &mut m, root), Err(LoadError::BadSegment));
}

#[test]
fn segment_window_beyond_image_is_rejected() {
    let (mut m, root) = fresh_space();
    let elf = image_of(one_segment(0x1000, 8, 16, 16, PF_R), 0x1000);
    let image = vec![0u8; 16];
    assert_eq!(load(&elf, &image, &mut m, root), Err(LoadError::BadSegment));
}

#[test]
fn non_loadable_segments_are_ignored() {
    let (mut m, root) = fresh_space();
    let mut seg = one_segment(0x1000, 0, 16, 16, PF_R);
    seg.seg_type = 4;
    let elf = image_of(seg, 0x1000);
    let image = vec![9u8; 16];
    let before = m.page_count();
    assert_eq!(load(&elf, &image, &mut m, root), Ok(0x1000));
    assert_eq!(m.page_count(), before);
    assert_eq!(read_mapped_byte(&m, root, 0x1000), None);
}

#[test]
fn later_segment_wins_over_guard_page() {
    // segment A has an aligned mem_size, so its guard page is the very page
    // segment B loads; B comes later in the order, so B's bytes stand
    let (mut m, root) = fresh_space();
    let a = one_segment(0x1000, 0, 8, 4096, PF_R | PF_X);
    let b = one_segment(0x2000, 8, 8, 8, PF_R | PF_W);
    let elf = ElfImage {
        entry: 0x1000,
        class: ELF_CLASS_32,
        machine: EM_RISCV,
        elf_type: ET_EXEC,
        segments: vec![a, b],
    };
    let image = vec![1, 2, 3, 4, 5, 6, 7, 8, 21, 22, 23, 24, 25, 26, 27, 28];
    assert_eq!(load(&elf, &image, &mut m, root), Ok(0x1000));
    // segment A's own page is intact
    assert_eq!(read_mapped_byte(&m, root, 0x1000), Some(1));
    assert_eq!(read_mapped_byte(&m, root, 0x1007), Some(8));
    assert_eq!(read_mapped_byte(&m, root, 0x1008), Some(0));
    // the overlapped page carries B's bytes, not A's zero guard
    assert_eq!(read_mapped_byte(&m, root, 0x2000), Some(21));
    assert_eq!(read_mapped_byte(&m, root, 0x2007), Some(28));
    assert_eq!(read_mapped_byte(&m, root, 0x2008), Some(0));
    let (_pa, perm) = lookup(&m, root, 0x2000).unwrap();
    assert_eq!(perm, ceno_boot::pte::PTE_U | PTE_R | PTE_W);
}

#[test]
fn two_disjoint_segments_both_load() {
    let (mut m, root) = fresh_space();
    let a = one_segment(0x1000, 0, 8, 8, PF_R | PF_X);
    let b = one_segment(0x10000, 8, 8, 8, PF_R | PF_W);
    let elf = ElfImage {
        entry: 0x1000,
        class: ELF_CLASS_32,
        machine: EM_RISCV,
        elf_type: ET_EXEC,
        segments: vec![a, b],
    };
    let image = vec![1, 2, 3, 4, 5, 6, 7, 8, 11, 12, 13, 14, 15, 16, 17, 18];
    assert_eq!(load(&elf, &image, &mut m, root), Ok(0x1000));
    assert_eq!(read_mapped_byte(&m, root, 0x1000), Some(1));
    assert_eq!(read_mapped_byte(&m, root, 0x1007), Some(8));
    assert_eq!(read_mapped_byte(&m, root, 0x10000), Some(11));
    assert_eq!(read_mapped_byte(&m, root, 0x10007), Some(18));
    assert_eq!(read_mapped_byte(&m, root, 0x1008), Some(0));
}
