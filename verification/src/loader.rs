//! The ELF segment loader: walks the loadable program headers, backs each
//! with freshly allocated pages holding the file bytes and a zero tail, and
//! maps them with permissions derived from the segment flags.
//!
//! Every check the boot has to make is made first; only a fully acceptable
//! image touches the arena. The stated sizing policy is that a segment is
//! backed by `mem_size / 4096 + 1` pages: one page more than the minimum, a
//! deliberate guard band. Segments are processed in program-header order
//! and the last write to a virtual page wins, so where backing ranges
//! touch — typically a segment's guard page falling on the next segment's
//! first page — the later segment's bytes stand.

use vstd::prelude::*;
use crate::phys::PhysMem;
use crate::os::{os_wf, translate_os, byte_at, map_region, lemma_os_frame, lemma_byte_at_data,
    VA_LIMIT_2LVL};
use crate::pte::{PAGE_SIZE, PHYS_ADDR_LIMIT, leaf_flags_ok, lemma_mod_add_zero};
use crate::elf::{ElfImage, Segment, ELF_CLASS_32, EM_RISCV, ET_EXEC, PT_LOAD, pte_flags_of,
    segment_pte_flags};

verus! {

/// Why an image was rejected. Every rejection is fatal to the boot.
#[derive(Clone, Copy, PartialEq, Eq, Structural, Debug)]
pub enum LoadError {
    /// The image is not for the expected word width.
    WrongClass,
    /// The image is not for the expected instruction-set architecture.
    WrongMachine,
    /// The image is not a static executable.
    WrongType,
    /// A loadable program header is malformed: unaligned, out of the file's
    /// or the address space's bounds, or without any access permission.
    BadSegment,
}

/// The header is for the expected word width, architecture and object type.
pub open spec fn header_ok(elf: ElfImage) -> bool {
    &&& elf.class == ELF_CLASS_32
    &&& elf.machine == EM_RISCV
    &&& elf.elf_type == ET_EXEC
}

/// Number of pages backing a segment: one more than the minimum that covers
/// `mem_size`, as a guard band.
pub open spec fn seg_page_count(s: Segment) -> int {
    s.mem_size / PAGE_SIZE + 1
}

/// The segment must be processed.
pub open spec fn seg_loadable(s: Segment) -> bool {
    s.seg_type == PT_LOAD
}

/// A loadable program header the loader accepts: page-aligned, inside the
/// file image, no larger in the file than in memory, inside the virtual
/// address space with its guard page, and carrying at least one permission.
pub open spec fn seg_ok(s: Segment, image_len: int) -> bool {
    seg_loadable(s) ==> {
        &&& s.vaddr % PAGE_SIZE == 0
        &&& s.file_size <= s.mem_size
        &&& s.offset + s.file_size <= image_len
        &&& s.vaddr + seg_page_count(s) * PAGE_SIZE <= VA_LIMIT_2LVL
        &&& s.flags & 7 != 0
    }
}

/// The address lies in the backing range of a loadable segment strictly
/// after position `i` and before position `upto` of the program-header
/// order. Such a segment loads the address again, and its write wins.
pub open spec fn covered_after(segs: Seq<Segment>, i: int, upto: int, x: u64) -> bool {
    exists|j: int|
        i < j < upto && seg_loadable(#[trigger] segs[j]) && segs[j].vaddr <= x
            < segs[j].vaddr + seg_page_count(segs[j]) * PAGE_SIZE
}

/// The address is loaded again by a loadable segment later in the order.
pub open spec fn covered_later(segs: Seq<Segment>, i: int, x: u64) -> bool {
    covered_after(segs, i, segs.len() as int, x)
}

/// Widening the window keeps coverage.
proof fn lemma_covered_after_mono(segs: Seq<Segment>, i: int, u1: int, u2: int, x: u64)
    requires
        u1 <= u2,
        covered_after(segs, i, u1, x),
    ensures
        covered_after(segs, i, u2, x),
{
    let j = choose|j: int|
        i < j < u1 && seg_loadable(#[trigger] segs[j]) && segs[j].vaddr <= x
            < segs[j].vaddr + seg_page_count(segs[j]) * PAGE_SIZE;
    assert(i < j < u2 && seg_loadable(segs[j]));
}

/// Arena bytes the loader may still need for the segments from `i` on: one
/// data page and at most one table page for each backing page.
pub open spec fn load_room(segs: Seq<Segment>, i: int) -> int
    decreases segs.len() - i,
{
    if i < 0 || i >= segs.len() {
        0
    } else {
        (if seg_loadable(segs[i]) {
            2 * seg_page_count(segs[i]) * PAGE_SIZE
        } else {
            0
        }) + load_room(segs, i + 1)
    }
}

/// The room a suffix needs never goes below zero.
proof fn lemma_load_room_nonneg(segs: Seq<Segment>, i: int)
    ensures
        load_room(segs, i) >= 0,
    decreases segs.len() - i,
{
    if 0 <= i < segs.len() {
        lemma_load_room_nonneg(segs, i + 1);
    }
}

/// The byte a loaded segment exposes at offset `off` from its base: the file
/// byte where the file window reaches, zero beyond it.
pub open spec fn expected_byte(s: Segment, image: Seq<u8>, off: int) -> u8 {
    if off < s.file_size {
        image[s.offset + off]
    } else {
        0u8
    }
}

/// The three facts one loaded byte gives: it reads back as the file byte or
/// the zero tail, and its page is mapped with the segment's translated
/// permission bits.
pub open spec fn seg_byte_ok(
    m: PhysMem,
    root: usize,
    s: Segment,
    image: Seq<u8>,
    off: int,
) -> bool {
    &&& byte_at(m, root, (s.vaddr + off) as u64) == Some(expected_byte(s, image, off))
    &&& translate_os(m, root, (s.vaddr + off) as u64) is Some
    &&& translate_os(m, root, (s.vaddr + off) as u64)->Some_0.1 == pte_flags_of(s.flags)
}

/// The segment at position `i` is loaded, up to the segments before `upto`:
/// every byte of its backing pages that none of them loads again reads and
/// translates as the segment asks.
pub open spec fn seg_loaded_upto(
    m: PhysMem,
    root: usize,
    segs: Seq<Segment>,
    i: int,
    upto: int,
    image: Seq<u8>,
) -> bool {
    forall|off: int|
        0 <= off < seg_page_count(segs[i]) * PAGE_SIZE && !covered_after(segs, i, upto, (
        segs[i].vaddr + off) as u64) ==> #[trigger] seg_byte_ok(m, root, segs[i], image, off)
}

/// The segment at position `i` is loaded: every byte of its backing pages
/// that no later loadable segment loads again reads and translates as the
/// segment asks. Where a later segment's backing range covers the byte —
/// the usual case being a guard page on the next segment's first page — the
/// later write wins and that segment's own claim speaks instead.
pub open spec fn seg_loaded(
    m: PhysMem,
    root: usize,
    segs: Seq<Segment>,
    i: int,
    image: Seq<u8>,
) -> bool {
    forall|off: int|
        0 <= off < seg_page_count(segs[i]) * PAGE_SIZE && !covered_later(segs, i, (
        segs[i].vaddr + off) as u64) ==> #[trigger] seg_byte_ok(m, root, segs[i], image, off)
}

/// Loads a parsed image into the address space rooted at `root`: checks the
/// header and every loadable program header, backs each loadable segment in
/// program-header order with fresh pages holding its file bytes and a zero
/// tail, maps them, and returns the entry point unchanged. A rejected image
/// leaves the arena untouched.
#[verifier::rlimit(100)]
pub fn load(elf: &ElfImage, image: &Vec<u8>, m: &mut PhysMem, root: usize) -> (r: Result<
    u64,
    LoadError,
>)
    requires
        os_wf(*old(m), root),
        image@.len() < 0x1_0000_0000,
        old(m).base + old(m).pages@.len() * 4096 + load_room(elf.segments@, 0)
            <= PHYS_ADDR_LIMIT,
    ensures
        os_wf(*final(m), root),
        final(m).base == old(m).base,
        r is Ok <==> (header_ok(*elf) && forall|i: int| 0 <= i < elf.segments@.len()
            ==> seg_ok(elf.segments@[i], image@.len() as int)),
        r matches Ok(entry) ==> entry == elf.entry,
        r is Err ==> *final(m) == *old(m),
        r == Err::<u64, LoadError>(LoadError::WrongClass) <==> elf.class != ELF_CLASS_32,
        r == Err::<u64, LoadError>(LoadError::WrongMachine)
            <==> (elf.class == ELF_CLASS_32 && elf.machine != EM_RISCV),
        r == Err::<u64, LoadError>(LoadError::WrongType)
            <==> (elf.class == ELF_CLASS_32 && elf.machine == EM_RISCV
                && elf.elf_type != ET_EXEC),
        r is Ok ==> forall|i: int| 0 <= i < elf.segments@.len()
            && seg_loadable(#[trigger] elf.segments@[i])
            ==> seg_loaded(*final(m), root, elf.segments@, i, image@),
{
    if elf.class != ELF_CLASS_32 {
        return Err(LoadError::WrongClass);
    }
    if elf.machine != EM_RISCV {
        return Err(LoadError::WrongMachine);
    }
    if elf.elf_type != ET_EXEC {
        return Err(LoadError::WrongType);
    }
    let n = elf.segments.len();
    // validation pass: nothing is touched until the whole image is accepted
    let mut i: usize = 0;
    while i < n
        invariant
            n == elf.segments@.len(),
            i <= n,
            image@.len() < 0x1_0000_0000,
            os_wf(*m, root),
            *m == *old(m),
            elf.class == ELF_CLASS_32,
            elf.machine == EM_RISCV,
            elf.elf_type == ET_EXEC,
            forall|j: int| 0 <= j < i ==> seg_ok(elf.segments@[j], image@.len() as int),
        decreases n - i,
    {
        let s = elf.segments[i];
        if s.seg_type == PT_LOAD {
            if s.vaddr % PAGE_SIZE != 0 {
                return Err(LoadError::BadSegment);
            }
            if s.file_size > s.mem_size {
                return Err(LoadError::BadSegment);
            }
            if s.offset > u64::MAX - s.file_size {
                return Err(LoadError::BadSegment);
            }
            if s.offset + s.file_size > image.len() as u64 {
                return Err(LoadError::BadSegment);
            }
            if s.mem_size >= VA_LIMIT_2LVL || s.vaddr >= VA_LIMIT_2LVL {
                return Err(LoadError::BadSegment);
            }
            let pages_bytes = (s.mem_size / PAGE_SIZE + 1) * PAGE_SIZE;
            if s.vaddr + pages_bytes > VA_LIMIT_2LVL {
                return Err(LoadError::BadSegment);
            }
            if s.flags & 7 == 0 {
                return Err(LoadError::BadSegment);
            }
        }
        i = i + 1;
    }
    // load pass, in program-header order
    let ghost m0 = *old(m);
    let mut i: usize = 0;
    while i < n
        invariant
            n == elf.segments@.len(),
            i <= n,
            image@.len() < 0x1_0000_0000,
            forall|j: int| 0 <= j < n ==> seg_ok(elf.segments@[j], image@.len() as int),
            elf.class == ELF_CLASS_32,
            elf.machine == EM_RISCV,
            elf.elf_type == ET_EXEC,
            os_wf(*m, root),
            m.base == m0.base,
            m0.pages@.len() <= m.pages@.len(),
            m.base + m.pages@.len() * 4096 + load_room(elf.segments@, i as int)
                <= PHYS_ADDR_LIMIT,
            forall|j: int| 0 <= j < i && seg_loadable(#[trigger] elf.segments@[j])
                ==> seg_loaded_upto(*m, root, elf.segments@, j, i as int, image@),
        decreases n - i,
    {
        let s = elf.segments[i];
        // a segment's claims stay valid once the segments up to and
        // including this one are accounted for
        proof {
            assert forall|j: int| 0 <= j < i && seg_loadable(#[trigger] elf.segments@[j])
                implies seg_loaded_upto(*m, root, elf.segments@, j, i as int + 1, image@) by {
                let sj = elf.segments@[j];
                assert forall|off: int|
                    0 <= off < seg_page_count(sj) * PAGE_SIZE
                        && !covered_after(elf.segments@, j, i as int + 1, (sj.vaddr + off) as u64)
                    implies #[trigger] seg_byte_ok(*m, root, sj, image@, off) by {
                    if covered_after(elf.segments@, j, i as int, (sj.vaddr + off) as u64) {
                        lemma_covered_after_mono(elf.segments@, j, i as int, i as int + 1, (
                        sj.vaddr + off) as u64);
                    }
                };
            };
        }
        if s.seg_type == PT_LOAD {
            let pages = s.mem_size / PAGE_SIZE + 1;
            let fl = segment_pte_flags(s.flags);
            let file_end = s.offset + s.file_size;
            proof {
                assert(seg_ok(elf.segments@[i as int], image@.len() as int));
            }
            let mut p: u64 = 0;
            while p < pages
                invariant
                    n == elf.segments@.len(),
                    (i as int) < n,
                    s == elf.segments@[i as int],
                    seg_loadable(s),
                    image@.len() < 0x1_0000_0000,
                    forall|j: int| 0 <= j < n
                        ==> seg_ok(elf.segments@[j], image@.len() as int),
                    pages == seg_page_count(s),
                    fl == pte_flags_of(s.flags),
                    leaf_flags_ok(fl),
                    file_end == s.offset + s.file_size,
                    p <= pages,
                    os_wf(*m, root),
                    m.base == m0.base,
                    m0.pages@.len() <= m.pages@.len(),
                    m.base + m.pages@.len() * 4096 + 2 * (pages - p) * 4096
                        + load_room(elf.segments@, i as int + 1) <= PHYS_ADDR_LIMIT,
                    forall|j: int| 0 <= j < i && seg_loadable(#[trigger] elf.segments@[j])
                        ==> seg_loaded_upto(*m, root, elf.segments@, j, i as int + 1,
                            image@),
                    forall|off: int| 0 <= off < p * PAGE_SIZE
                        ==> #[trigger] seg_byte_ok(*m, root, s, image@, off),
                decreases pages - p,
            {
                proof {
                    lemma_load_room_nonneg(elf.segments@, i as int + 1);
                    assert(seg_ok(elf.segments@[i as int], image@.len() as int));
                }
                let va_p = s.vaddr + p * PAGE_SIZE;
                let file_off = s.offset + p * PAGE_SIZE;
                let win_len: u64 = if file_off < file_end {
                    if file_end - file_off < PAGE_SIZE {
                        file_end - file_off
                    } else {
                        PAGE_SIZE
                    }
                } else {
                    0
                };
                // build the page's content: the file window, then zeros
                let mut buf: Vec<u8> = vec![0u8; 4096];
                let mut k: usize = 0;
                while (k as u64) < win_len
                    invariant
                        win_len <= PAGE_SIZE,
                        file_off == s.offset + p * PAGE_SIZE,
                        win_len > 0 ==> file_off + win_len <= image@.len(),
                        image@.len() < 0x1_0000_0000,
                        k <= win_len,
                        buf@.len() == 4096,
                        forall|b: int| 0 <= b < k ==> #[trigger] buf@[b]
                            == image@[file_off + b],
                        forall|b: int| k <= b < 4096 ==> #[trigger] buf@[b] == 0u8,
                    decreases win_len - k,
                {
                    buf[k] = image[(file_off + k as u64) as usize];
                    k = k + 1;
                }
                let ghost pre = *m;
                let pa = m.allocate_page_bytes(buf);
                let ghost mid = *m;
                proof {
                    assert(os_wf(mid, root)) by {
                        lemma_arena_grow_wf(pre, mid, root);
                    };
                    assert forall|off: int| 0 <= off < p * PAGE_SIZE
                        implies #[trigger] seg_byte_ok(mid, root, s, image@, off) by {
                        assert(seg_byte_ok(pre, root, s, image@, off));
                        lemma_os_frame(pre, mid, root, (s.vaddr + off) as u64);
                    };
                    assert forall|j: int| 0 <= j < i
                        && seg_loadable(#[trigger] elf.segments@[j])
                        implies seg_loaded_upto(mid, root, elf.segments@, j, i as int + 1,
                            image@) by {
                        let sj = elf.segments@[j];
                        assert(seg_loaded_upto(pre, root, elf.segments@, j, i as int + 1,
                            image@));
                        assert forall|off: int|
                            0 <= off < seg_page_count(sj) * PAGE_SIZE
                                && !covered_after(elf.segments@, j, i as int + 1, (sj.vaddr
                                + off) as u64)
                            implies #[trigger] seg_byte_ok(mid, root, sj, image@, off) by {
                            assert(seg_byte_ok(pre, root, sj, image@, off));
                            lemma_os_frame(pre, mid, root, (sj.vaddr + off) as u64);
                        };
                    };
                }
                map_region(m, root, va_p, pa, fl, PAGE_SIZE);
                proof {
                    let post = *m;
                    let new_idx = pre.pages@.len() as int;
                    assert(post.pages@[new_idx] == mid.pages@[new_idx]);
                    crate::phys::lemma_idx_of(post, pa);
                    // the fresh page now reads back through the mapping
                    assert forall|off: int| p * PAGE_SIZE <= off < (p + 1) * PAGE_SIZE
                        implies #[trigger] seg_byte_ok(post, root, s, image@, off) by {
                        let x = (s.vaddr + off) as u64;
                        assert(va_p <= x < va_p + PAGE_SIZE);
                        assert(translate_os(post, root, x)
                            == Some((((pa + (x - va_p)) as u64), fl)));
                        lemma_byte_at_data(post, root, x, pa, fl);
                        let b = (off - p * PAGE_SIZE) as int;
                        assert(x % PAGE_SIZE == b) by {
                            lemma_mod_add_zero(s.vaddr as int, p * PAGE_SIZE as int,
                                PAGE_SIZE as int);
                            vstd::arithmetic::div_mod::lemma_fundamental_div_mod(
                                x as int, 4096);
                            vstd::arithmetic::div_mod::lemma_fundamental_div_mod(
                                va_p as int, 4096);
                        };
                        assert(post.datav(new_idx)[b] == expected_byte(s, image@, off));
                    };
                    // this segment's earlier pages are below the one just mapped
                    assert forall|off: int| 0 <= off < p * PAGE_SIZE
                        implies #[trigger] seg_byte_ok(post, root, s, image@, off) by {
                        assert(seg_byte_ok(mid, root, s, image@, off));
                        let x = (s.vaddr + off) as u64;
                        assert(x < va_p);
                    };
                    // earlier segments' claims hold outside this segment's span
                    assert forall|j: int| 0 <= j < i
                        && seg_loadable(#[trigger] elf.segments@[j])
                        implies seg_loaded_upto(post, root, elf.segments@, j, i as int + 1,
                            image@) by {
                        let sj = elf.segments@[j];
                        assert(seg_loaded_upto(mid, root, elf.segments@, j, i as int + 1,
                            image@));
                        assert forall|off: int|
                            0 <= off < seg_page_count(sj) * PAGE_SIZE
                                && !covered_after(elf.segments@, j, i as int + 1, (sj.vaddr
                                + off) as u64)
                            implies #[trigger] seg_byte_ok(post, root, sj, image@, off) by {
                            assert(seg_byte_ok(mid, root, sj, image@, off));
                            let x = (sj.vaddr + off) as u64;
                            assert(!(s.vaddr <= x < s.vaddr + seg_page_count(s)
                                * PAGE_SIZE)) by {
                                if s.vaddr <= x < s.vaddr + seg_page_count(s) * PAGE_SIZE {
                                    assert(j < i as int && seg_loadable(
                                        elf.segments@[i as int]));
                                    assert(covered_after(elf.segments@, j, i as int + 1, x));
                                }
                            };
                            assert(!(va_p <= x < va_p + PAGE_SIZE));
                            assert(x < VA_LIMIT_2LVL);
                        };
                    };
                }
                p = p + 1;
            }
            proof {
                // the whole segment is loaded; no segment sits between a
                // position and its successor, so the claim is unconditional
                assert(seg_loaded_upto(*m, root, elf.segments@, i as int, i as int + 1,
                    image@)) by {
                    assert forall|off: int|
                        0 <= off < seg_page_count(elf.segments@[i as int]) * PAGE_SIZE
                            && !covered_after(elf.segments@, i as int, i as int + 1, (
                            elf.segments@[i as int].vaddr + off) as u64)
                        implies #[trigger] seg_byte_ok(*m, root, elf.segments@[i as int],
                            image@, off) by {
                        assert(seg_byte_ok(*m, root, s, image@, off));
                    };
                };
            }
        }
        i = i + 1;
        proof {
            lemma_load_room_nonneg(elf.segments@, i as int);
        }
    }
    Ok(elf.entry)
}

/// Growth of the arena by fresh pages keeps a two-level table well formed.
proof fn lemma_arena_grow_wf(pre: PhysMem, post: PhysMem, root: usize)
    requires
        os_wf(pre, root),
        post.base == pre.base,
        post.arena_wf(),
        post.pages@.len() >= pre.pages@.len(),
        forall|j: int| 0 <= j < pre.pages@.len() ==> post.pages@[j] == pre.pages@[j],
    ensures
        os_wf(post, root),
{
    assert(post.tblv(root as int) == pre.tblv(root as int));
    assert forall|k: int| 0 <= k < crate::phys::ENTRY_COUNT_2LVL
        implies !crate::pte::entry_is_leaf(#[trigger] post.tblv(root as int)[k])
            && crate::os::os_link_ok(post, root as int, post.tblv(root as int)[k]) by {
        assert(crate::os::os_link_ok(pre, root as int, pre.tblv(root as int)[k]));
        let e = pre.tblv(root as int)[k];
        if crate::pte::entry_is_link(e) {
            crate::phys::lemma_idx_of(pre, crate::pte::entry_addr(e));
            assert(post.pages@[pre.idx_of(crate::pte::entry_addr(e))]
                == pre.pages@[pre.idx_of(crate::pte::entry_addr(e))]);
        }
    };
}

} // verus!
