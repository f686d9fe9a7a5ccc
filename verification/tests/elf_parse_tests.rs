//! Parsing real ELF bytes through the library's parser entry.

use ceno_boot::elf::{parse_elf, ELF_CLASS_32, EM_RISCV, ET_EXEC, PT_LOAD};

fn push_u16(v: &mut Vec<u8>, x: u16) {
    v.extend_from_slice(&x.to_le_bytes());
}

fn push_u32(v: &mut Vec<u8>, x: u32) {
    v.extend_from_slice(&x.to_le_bytes());
}

/// A minimal 32-bit little-endian RISC-V executable with one loadable
/// segment of 16 file bytes and a 32-byte memory footprint.
fn tiny_elf() -> Vec<u8> {
    let mut v: Vec<u8> = Vec::new();
    // identification
    v.extend_from_slice(&[0x7F, b'E', b'L', b'F', 1, 1, 1, 0, 0, 0, 0, 0, 0, 0, 0, 0]);
    push_u16(&mut v, 2); // executable
    push_u16(&mut v, 243); // RISC-V
    push_u32(&mut v, 1); // version
    push_u32(&mut v, 0x2000); // entry
    push_u32(&mut v, 52); // program-header table offset
    push_u32(&mut v, 0); // no section headers
    push_u32(&mut v, 0); // flags
    push_u16(&mut v, 52); // header size
    push_u16(&mut v, 32); // program-header entry size
    push_u16(&mut v, 1); // one program header
    push_u16(&mut v, 40);
    push_u16(&mut v, 0);
    push_u16(&mut v, 0);
    // the one program header
    push_u32(&mut v, 1); // loadable
    push_u32(&mut v, 84); // file offset of the segment bytes
    push_u32(&mut v, 0x2000); // virtual address
    push_u32(&mut v, 0x2000); // physical address
    push_u32(&mut v, 16); // file size
    push_u32(&mut v, 32); // memory size
    push_u32(&mut v, 5); // readable, executable
    push_u32(&mut v, 0x1000); // alignment
    // segment bytes
    for i in 0..16u8 {
        v.push(0xA0 + i);
    }
    v
}

#[test]
fn parses_header_and_program_headers() {
    let bytes = tiny_elf();
    let img = parse_elf(&bytes).expect("a well-formed image parses");
    assert_eq!(img.class, ELF_CLASS_32);
    assert_eq!(img.machine, EM_RISCV);
    assert_eq!(img.elf_type, ET_EXEC);
    assert_eq!(img.entry, 0x2000);
    assert_eq!(img.segments.len(), 1);
    let s = img.segments[0];
    assert_eq!(s.seg_type, PT_LOAD);
    assert_eq!(s.vaddr, 0x2000);
    assert_eq!(s.offset, 84);
    assert_eq!(s.file_size, 16);
    assert_eq!(s.mem_size, 32);
    assert_eq!(s.flags, 5);
}

#[test]
fn garbage_does_not_parse() {
    let empty: Vec<u8> = Vec::new();
    assert!(parse_elf(&empty).is_none());
    let noise = vec![0x7Fu8, b'E', b'L', b'G', 9, 9];
    assert!(parse_elf(&noise).is_none());
}
