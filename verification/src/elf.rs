//! The ELF image as the loader consumes it: the header fields it checks and
//! the program-header table, as plain values, plus the translation of
//! segment permissions into page-table permission bits.

use vstd::prelude::*;
use crate::pte::{PTE_U, PTE_R, PTE_W, PTE_X, leaf_flags_ok};

verus! {

/// Identification byte of 32-bit images.
pub const ELF_CLASS_32: u8 = 1;

/// Machine identifier of RISC-V images.
pub const EM_RISCV: u16 = 243;

/// Object type of static executables.
pub const ET_EXEC: u16 = 2;

/// Program-header type of loadable segments.
pub const PT_LOAD: u32 = 1;

/// Executable bit of a segment's flags.
pub const PF_X: u32 = 1;

/// Writable bit of a segment's flags.
pub const PF_W: u32 = 2;

/// Readable bit of a segment's flags.
pub const PF_R: u32 = 4;

/// One program header.
#[derive(Clone, Copy, PartialEq, Eq, Structural, Debug)]
pub struct Segment {
    /// Segment type; only loadable segments are processed.
    pub seg_type: u32,
    /// Virtual address the segment expects to occupy.
    pub vaddr: u64,
    /// Physical address field of the header; informational only.
    pub paddr: u64,
    /// Offset of the segment's bytes within the file image.
    pub offset: u64,
    /// Number of bytes present in the file image.
    pub file_size: u64,
    /// Number of bytes the segment occupies in memory; the tail beyond
    /// `file_size` is zero-filled.
    pub mem_size: u64,
    /// Read/write/execute bits of the segment.
    pub flags: u32,
}

/// A parsed ELF image.
pub struct ElfImage {
    /// Virtual address execution starts at.
    pub entry: u64,
    /// Identification class byte.
    pub class: u8,
    /// Machine identifier.
    pub machine: u16,
    /// Object type.
    pub elf_type: u16,
    /// The program-header table.
    pub segments: Vec<Segment>,
}

/// What a byte image parses to when it is a well-formed ELF file: entry
/// point, class, machine, object type, and the program-header table. The
/// result is a function of the bytes alone.
pub uninterp spec fn elf_parse(bytes: Seq<u8>) -> Option<(u64, u8, u16, u16, Seq<Segment>)>;

/// Relies on goblin's ELF parser: `goblin::elf::Elf::parse` reads the header
/// and the program-header table out of the byte image, and fails exactly on
/// images it cannot parse. The result depends on the bytes alone.
#[verifier::external_body]
pub fn parse_elf(bytes: &Vec<u8>) -> (r: Option<ElfImage>)
    ensures
        r is Some <==> elf_parse(bytes@) is Some,
        r matches Some(img) ==> {
            let p = elf_parse(bytes@)->Some_0;
            img.entry == p.0 && img.class == p.1 && img.machine == p.2
                && img.elf_type == p.3 && img.segments@ == p.4
        },
{
    match goblin::elf::Elf::parse(bytes.as_slice()) {
        Ok(e) => Some(ElfImage {
            entry: e.entry,
            class: e.header.e_ident[4],
            machine: e.header.e_machine,
            elf_type: e.header.e_type,
            segments: e.program_headers.iter().map(|p| Segment {
                seg_type: p.p_type, vaddr: p.p_vaddr, paddr: p.p_paddr, offset: p.p_offset,
                file_size: p.p_filesz, mem_size: p.p_memsz, flags: p.p_flags,
            }).collect(),
        }),
        Err(_) => None,
    }
}

/// The page-table permission bits a segment's flags translate to: its own
/// read, write and execute bits, and unconditionally the user bit, because
/// the payload runs at reduced privilege.
pub open spec fn pte_flags_of(f: u32) -> u64 {
    PTE_U | (if f & PF_R != 0 { PTE_R } else { 0 }) | (if f & PF_W != 0 { PTE_W } else { 0 })
        | (if f & PF_X != 0 { PTE_X } else { 0 })
}

/// Translates segment flags into page-table permission bits.
pub fn segment_pte_flags(f: u32) -> (r: u64)
    ensures
        r == pte_flags_of(f),
        f & 7 != 0 ==> leaf_flags_ok(r),
{
    proof {
        assert(f & 7 != 0 ==> leaf_flags_ok(pte_flags_of(f))) by (bit_vector);
    }
    PTE_U | (if f & PF_R != 0 { PTE_R } else { 0 }) | (if f & PF_W != 0 { PTE_W } else { 0 })
        | (if f & PF_X != 0 { PTE_X } else { 0 })
}

} // verus!
