//! Strict two-level page-table builder with 4 KiB leaves only.
//!
//! This is the profile the loader and the demand-paging handler use. The
//! tables live in the physical page arena itself: the root and every
//! second-level table occupy pages of the arena, side by side with the
//! payload data pages. A top-level entry is always a link, never a leaf; a
//! second-level entry is a leaf. The last write to a slot wins: an existing
//! mapping at the same virtual page is silently overwritten.
//!
//! A model table holds its 1024 entries in the shared entry format; the one
//! physical page the hardware walker reads is its Sv32 image — each entry
//! packed into a little-endian 32-bit word, page number over permission
//! bits — which `sv32_table_image` produces and the surrounding program
//! writes out.

use vstd::prelude::*;
use crate::phys::{PhysMem, PageContent, ENTRY_COUNT_2LVL, lemma_idx_of};
use crate::pte::{
    PAGE_SIZE, PHYS_ADDR_LIMIT, entry_valid, entry_is_leaf, entry_is_link, entry_addr,
    entry_perm, leaf_flags_ok, vpn_hi, vpn_lo, make_leaf_entry, make_link_entry,
    lemma_zero_entry_invalid, entry_addr_of, is_valid_entry, is_leaf_entry, vpn_hi_of,
    vpn_lo_of, lemma_vpn_bounds, lemma_vpn2lvl_page_range, lemma_entry_addr_bound,
    lemma_mod_add_zero, lemma_mod_sub_zero,
};

verus! {

/// Exclusive upper bound of the virtual addresses the two-level scheme
/// translates: two 10-bit indices over a 12-bit page offset.
pub const VA_LIMIT_2LVL: u64 = 0x1_0000_0000;

/// A link entry of the top-level table must point, page-aligned, at another
/// page of the arena that holds a table and is not the root itself.
pub open spec fn os_link_ok(m: PhysMem, root: int, e: u64) -> bool {
    entry_is_link(e) ==> {
        &&& m.base + 4096 <= entry_addr(e)
        &&& entry_addr(e) < m.base + m.pages@.len() * 4096
        &&& (entry_addr(e) - m.base) % 4096 == 0
        &&& m.idx_of(entry_addr(e)) != root
        &&& m.is_table(m.idx_of(entry_addr(e)))
    }
}

/// Well-formedness of a two-level table rooted at page `root` of the arena:
/// top-level entries are links or invalid, links are sound, and no two links
/// share a target.
pub open spec fn os_wf(m: PhysMem, root: usize) -> bool {
    &&& m.arena_wf()
    &&& (root as int) < m.pages@.len()
    &&& m.is_table(root as int)
    &&& forall|k: int| 0 <= k < ENTRY_COUNT_2LVL
        ==> !entry_is_leaf(#[trigger] m.tblv(root as int)[k])
    &&& forall|k: int| 0 <= k < ENTRY_COUNT_2LVL
        ==> os_link_ok(m, root as int, #[trigger] m.tblv(root as int)[k])
    &&& forall|k1: int, k2: int|
        (0 <= k1 < ENTRY_COUNT_2LVL && 0 <= k2 < ENTRY_COUNT_2LVL
            && entry_is_link(#[trigger] m.tblv(root as int)[k1])
            && entry_is_link(#[trigger] m.tblv(root as int)[k2])
            && entry_addr(m.tblv(root as int)[k1]) == entry_addr(m.tblv(root as int)[k2]))
            ==> k1 == k2
}

/// Walks the two-level table for a virtual address: the physical address and
/// permission bits its mapping resolves to, if any.
pub open spec fn translate_os(m: PhysMem, root: usize, x: u64) -> Option<(u64, u64)> {
    let e1 = m.tblv(root as int)[vpn_hi(x) as int];
    if entry_is_link(e1) {
        let e0 = m.tblv(m.idx_of(entry_addr(e1)))[vpn_lo(x) as int];
        if entry_is_leaf(e0) {
            Some((((entry_addr(e0) + x % PAGE_SIZE) as u64), entry_perm(e0)))
        } else {
            None
        }
    } else {
        None
    }
}

/// The byte a virtual address reads through the table, when its mapping
/// lands in a data page of the arena.
pub open spec fn byte_at(m: PhysMem, root: usize, x: u64) -> Option<u8> {
    let e1 = m.tblv(root as int)[vpn_hi(x) as int];
    if entry_is_link(e1) {
        let e0 = m.tblv(m.idx_of(entry_addr(e1)))[vpn_lo(x) as int];
        if entry_is_leaf(e0) && m.owns(entry_addr(e0)) && m.is_data(m.idx_of(entry_addr(e0))) {
            Some(m.datav(m.idx_of(entry_addr(e0)))[(x % PAGE_SIZE) as int])
        } else {
            None
        }
    } else {
        None
    }
}

/// Nothing of the walk of `x` changes when the arena only grows by table
/// pages and no old page changes.
pub proof fn lemma_os_frame(pre: PhysMem, post: PhysMem, root: usize, x: u64)
    requires
        os_wf(pre, root),
        post.base == pre.base,
        post.pages@.len() >= pre.pages@.len(),
        forall|j: int| 0 <= j < pre.pages@.len() ==> post.pages@[j] == pre.pages@[j],
    ensures
        translate_os(post, root, x) == translate_os(pre, root, x),
        byte_at(pre, root, x) is Some ==> byte_at(post, root, x) == byte_at(pre, root, x),
{
    lemma_vpn_bounds(x);
    let e1 = pre.tblv(root as int)[vpn_hi(x) as int];
    if entry_is_link(e1) {
        assert(os_link_ok(pre, root as int, e1));
        lemma_idx_of(pre, entry_addr(e1));
        let t0 = pre.idx_of(entry_addr(e1));
        assert(post.tblv(t0) == pre.tblv(t0));
        let e0 = pre.tblv(t0)[vpn_lo(x) as int];
        if entry_is_leaf(e0) && pre.owns(entry_addr(e0)) {
            lemma_idx_of(pre, entry_addr(e0));
            assert(post.pages@[pre.idx_of(entry_addr(e0))]
                == pre.pages@[pre.idx_of(entry_addr(e0))]);
        }
    }
}

/// When a mapping resolves into a data page of the arena, the byte read
/// through it is that page's byte at the page offset.
pub proof fn lemma_byte_at_data(m: PhysMem, root: usize, x: u64, pb: u64, fl: u64)
    requires
        os_wf(m, root),
        pb % PAGE_SIZE == 0,
        pb < PHYS_ADDR_LIMIT,
        m.owns(pb),
        m.is_data(m.idx_of(pb)),
        translate_os(m, root, x) == Some((((pb + x % PAGE_SIZE) as u64), fl)),
    ensures
        byte_at(m, root, x) == Some(m.datav(m.idx_of(pb))[(x % PAGE_SIZE) as int]),
{
    lemma_vpn_bounds(x);
    let e1 = m.tblv(root as int)[vpn_hi(x) as int];
    assert(entry_is_link(e1));
    let e0 = m.tblv(m.idx_of(entry_addr(e1)))[vpn_lo(x) as int];
    assert(entry_is_leaf(e0));
    lemma_entry_addr_bound(e0);
    assert(entry_addr(e0) == pb);
}

/// Maps the pages of `[vaddr, vaddr + size)` one at a time onto
/// `[paddr, paddr + size)` with the given permission flags, allocating a
/// second-level table the first time a top-level slot is used. Data pages of
/// the arena are untouched, and only table pages are added.
pub fn map_region(
    m: &mut PhysMem,
    root: usize,
    vaddr: u64,
    paddr: u64,
    flags: u64,
    size: u64,
)
    requires
        os_wf(*old(m), root),
        vaddr % PAGE_SIZE == 0,
        paddr % PAGE_SIZE == 0,
        size % PAGE_SIZE == 0,
        size > 0,
        vaddr + size <= VA_LIMIT_2LVL,
        paddr + size <= PHYS_ADDR_LIMIT,
        leaf_flags_ok(flags),
        old(m).base + old(m).pages@.len() * 4096 + size <= PHYS_ADDR_LIMIT,
    ensures
        os_wf(*final(m), root),
        final(m).base == old(m).base,
        old(m).pages@.len() <= final(m).pages@.len(),
        final(m).pages@.len() * 4096 <= old(m).pages@.len() * 4096 + size,
        forall|j: int| 0 <= j < old(m).pages@.len() && old(m).is_data(j)
            ==> final(m).pages@[j] == old(m).pages@[j],
        forall|j: int| old(m).pages@.len() <= j < final(m).pages@.len()
            ==> final(m).is_table(j),
        forall|x: u64| vaddr <= x < vaddr + size ==> #[trigger] translate_os(*final(m), root, x)
            == Some((((paddr + (x - vaddr)) as u64), flags)),
        forall|x: u64| x < VA_LIMIT_2LVL && !(vaddr <= x < vaddr + size)
            ==> #[trigger] translate_os(*final(m), root, x) == translate_os(*old(m), root, x),
        forall|x: u64| x < VA_LIMIT_2LVL && !(vaddr <= x < vaddr + size)
            ==> #[trigger] byte_at(*final(m), root, x) == byte_at(*old(m), root, x),
{
    let mut va = vaddr;
    let mut pa = paddr;
    let mut rem = size;
    while rem > 0
        invariant
            os_wf(*m, root),
            m.base == old(m).base,
            vaddr % PAGE_SIZE == 0,
            paddr % PAGE_SIZE == 0,
            size % PAGE_SIZE == 0,
            vaddr + size <= VA_LIMIT_2LVL,
            paddr + size <= PHYS_ADDR_LIMIT,
            leaf_flags_ok(flags),
            rem <= size,
            rem % PAGE_SIZE == 0,
            va == vaddr + (size - rem),
            pa == paddr + (size - rem),
            va % PAGE_SIZE == 0,
            pa % PAGE_SIZE == 0,
            old(m).pages@.len() <= m.pages@.len(),
            m.pages@.len() * 4096 + rem <= old(m).pages@.len() * 4096 + size,
            m.base + m.pages@.len() * 4096 + rem <= PHYS_ADDR_LIMIT,
            forall|j: int| 0 <= j < old(m).pages@.len() && old(m).is_data(j)
                ==> m.pages@[j] == old(m).pages@[j],
            forall|j: int| old(m).pages@.len() <= j < m.pages@.len() ==> m.is_table(j),
            forall|x: u64| vaddr <= x < va ==> #[trigger] translate_os(*m, root, x)
                == Some((((paddr + (x - vaddr)) as u64), flags)),
            forall|x: u64| x < VA_LIMIT_2LVL && !(vaddr <= x < vaddr + size)
                ==> #[trigger] translate_os(*m, root, x) == translate_os(*old(m), root, x),
            forall|x: u64| x < VA_LIMIT_2LVL && !(vaddr <= x < vaddr + size)
                ==> #[trigger] byte_at(*m, root, x) == byte_at(*old(m), root, x),
        decreases rem,
    {
        let ghost pre = *m;
        let ghost va0 = va;
        let ghost pa0 = pa;
        let ghost rem0 = rem;
        map_page(m, root, va, pa, flags);
        va = va + PAGE_SIZE;
        pa = pa + PAGE_SIZE;
        rem = rem - PAGE_SIZE;
        proof {
            let t = *m;
            lemma_mod_add_zero(va0 as int, PAGE_SIZE as int, PAGE_SIZE as int);
            lemma_mod_add_zero(pa0 as int, PAGE_SIZE as int, PAGE_SIZE as int);
            lemma_mod_sub_zero(rem0 as int, PAGE_SIZE as int, PAGE_SIZE as int);
            assert forall|j: int| 0 <= j < old(m).pages@.len() && old(m).is_data(j)
                implies t.pages@[j] == old(m).pages@[j] by {
                assert(pre.pages@[j] == old(m).pages@[j]);
                assert(pre.is_data(j));
            };
            assert forall|j: int| old(m).pages@.len() <= j < t.pages@.len()
                implies t.is_table(j) by {
                if j < pre.pages@.len() {
                    assert(pre.is_table(j));
                }
            };
            assert forall|x: u64| vaddr <= x < va implies #[trigger] translate_os(t, root, x)
                == Some((((paddr + (x - vaddr)) as u64), flags)) by {
                lemma_vpn2lvl_page_range(va0, x);
                if va0 <= x {
                    assert(translate_os(t, root, x)
                        == Some((((pa0 + x % PAGE_SIZE) as u64), flags)));
                }
            };
            assert forall|x: u64| x < VA_LIMIT_2LVL && !(vaddr <= x < vaddr + size)
                implies #[trigger] translate_os(t, root, x)
                    == translate_os(*old(m), root, x) by {
                lemma_vpn2lvl_page_range(va0, x);
            };
            assert forall|x: u64| x < VA_LIMIT_2LVL && !(vaddr <= x < vaddr + size)
                implies #[trigger] byte_at(t, root, x) == byte_at(*old(m), root, x) by {
                lemma_vpn2lvl_page_range(va0, x);
            };
        }
    }
}

/// Maps one page. The slot the virtual address selects is written last, so
/// an existing mapping of the same virtual page is overwritten.
fn map_page(m: &mut PhysMem, root: usize, vaddr: u64, paddr: u64, flags: u64)
    requires
        os_wf(*old(m), root),
        vaddr < VA_LIMIT_2LVL,
        vaddr % PAGE_SIZE == 0,
        paddr % PAGE_SIZE == 0,
        paddr < PHYS_ADDR_LIMIT,
        leaf_flags_ok(flags),
        old(m).base + (old(m).pages@.len() + 1) * 4096 <= PHYS_ADDR_LIMIT,
    ensures
        os_wf(*final(m), root),
        final(m).base == old(m).base,
        old(m).pages@.len() <= final(m).pages@.len() <= old(m).pages@.len() + 1,
        forall|j: int| 0 <= j < old(m).pages@.len() && old(m).is_data(j)
            ==> final(m).pages@[j] == old(m).pages@[j],
        forall|j: int| old(m).pages@.len() <= j < final(m).pages@.len()
            ==> final(m).is_table(j),
        forall|j: int| 0 <= j < old(m).pages@.len() && old(m).is_table(j)
            ==> final(m).is_table(j),
        forall|x: u64| vpn_hi(x) == vpn_hi(vaddr) && vpn_lo(x) == vpn_lo(vaddr)
            ==> #[trigger] translate_os(*final(m), root, x)
                == Some((((paddr + x % PAGE_SIZE) as u64), flags)),
        forall|x: u64| !(vpn_hi(x) == vpn_hi(vaddr) && vpn_lo(x) == vpn_lo(vaddr))
            ==> #[trigger] translate_os(*final(m), root, x) == translate_os(*old(m), root, x),
        forall|x: u64| !(vpn_hi(x) == vpn_hi(vaddr) && vpn_lo(x) == vpn_lo(vaddr))
            ==> #[trigger] byte_at(*final(m), root, x) == byte_at(*old(m), root, x),
{
    let ihi = vpn_hi_of(vaddr) as usize;
    let ilo = vpn_lo_of(vaddr) as usize;
    let e1 = m.table_entry(root, ihi);
    let j0: usize;
    if is_valid_entry(e1) {
        let ghost pre = *m;
        proof {
            assert(os_link_ok(pre, root as int, e1));
            lemma_idx_of(pre, entry_addr(e1));
        }
        let n = m.page_count();
        let jq = (entry_addr_of(e1) - m.base) / PAGE_SIZE;
        proof {
            assert(n == pre.pages@.len());
            assert(jq == pre.idx_of(entry_addr(e1)));
            assert(jq < n as u64);
        }
        j0 = jq as usize;
    } else {
        let ghost pre = *m;
        let tpa = m.allocate_table();
        let n1 = m.page_count();
        j0 = n1 - 1;
        let le = make_link_entry(tpa);
        m.set_table_entry(root, ihi, le);
        proof {
            let post = *m;
            lemma_zero_entry_invalid();
            lemma_idx_of(post, tpa);
            assert(post.idx_of(entry_addr(le)) == j0 as int);
            assert(post.tblv(root as int) == pre.tblv(root as int).update(ihi as int, le));
            // well-formedness
            assert(os_wf(post, root)) by {
                assert forall|k: int| 0 <= k < ENTRY_COUNT_2LVL
                    implies !entry_is_leaf(#[trigger] post.tblv(root as int)[k])
                        && os_link_ok(post, root as int, post.tblv(root as int)[k]) by {
                    if k != ihi as int {
                        assert(post.tblv(root as int)[k] == pre.tblv(root as int)[k]);
                        assert(os_link_ok(pre, root as int, pre.tblv(root as int)[k]));
                    }
                };
                assert forall|k1: int, k2: int|
                    (0 <= k1 < ENTRY_COUNT_2LVL && 0 <= k2 < ENTRY_COUNT_2LVL
                        && entry_is_link(#[trigger] post.tblv(root as int)[k1])
                        && entry_is_link(#[trigger] post.tblv(root as int)[k2])
                        && entry_addr(post.tblv(root as int)[k1])
                            == entry_addr(post.tblv(root as int)[k2]))
                    implies k1 == k2 by {
                    if (k1 == ihi as int) != (k2 == ihi as int) {
                        let ko = if k1 == ihi as int { k2 } else { k1 };
                        assert(post.tblv(root as int)[ko] == pre.tblv(root as int)[ko]);
                        assert(os_link_ok(pre, root as int, pre.tblv(root as int)[ko]));
                        assert(entry_addr(pre.tblv(root as int)[ko])
                            < pre.base + pre.pages@.len() * 4096);
                        assert(entry_addr(le) == pre.base + pre.pages@.len() * 4096);
                        assert(false);
                    } else if k1 != ihi as int {
                        assert(post.tblv(root as int)[k1] == pre.tblv(root as int)[k1]);
                        assert(post.tblv(root as int)[k2] == pre.tblv(root as int)[k2]);
                    }
                };
            };
            // installing a link to an empty table changes no walk
            assert forall|x: u64| #[trigger] translate_os(post, root, x)
                == translate_os(pre, root, x) by {
                lemma_os_link_install(pre, post, root, ihi as int, j0 as int, x);
            };
            assert forall|x: u64| #[trigger] byte_at(post, root, x)
                == byte_at(pre, root, x) by {
                lemma_os_link_install(pre, post, root, ihi as int, j0 as int, x);
            };
        }
    }
    let ghost mid = *m;
    proof {
        assert(entry_is_link(mid.tblv(root as int)[ihi as int]));
        assert(mid.idx_of(entry_addr(mid.tblv(root as int)[ihi as int])) == j0 as int);
        assert(mid.is_table(j0 as int));
        assert(j0 as int != root as int);
    }
    let e = make_leaf_entry(paddr, flags);
    m.set_table_entry(j0, ilo, e);
    proof {
        let post = *m;
        assert(post.tblv(j0 as int) == mid.tblv(j0 as int).update(ilo as int, e));
        assert(post.tblv(root as int) == mid.tblv(root as int));
        // well-formedness: the root is untouched and links are unchanged
        assert(os_wf(post, root)) by {
            assert forall|k: int| 0 <= k < ENTRY_COUNT_2LVL
                implies !entry_is_leaf(#[trigger] post.tblv(root as int)[k])
                    && os_link_ok(post, root as int, post.tblv(root as int)[k]) by {
                assert(post.tblv(root as int)[k] == mid.tblv(root as int)[k]);
                assert(os_link_ok(mid, root as int, mid.tblv(root as int)[k]));
            };
        };
        // translation at the mapped page
        assert forall|x: u64| vpn_hi(x) == vpn_hi(vaddr) && vpn_lo(x) == vpn_lo(vaddr)
            implies #[trigger] translate_os(post, root, x)
                == Some((((paddr + x % PAGE_SIZE) as u64), flags)) by {
            lemma_vpn_bounds(x);
            assert(post.tblv(root as int)[vpn_hi(x) as int]
                == mid.tblv(root as int)[ihi as int]);
            assert(post.tblv(j0 as int)[vpn_lo(x) as int] == e);
        };
        // translation elsewhere
        assert forall|x: u64| !(vpn_hi(x) == vpn_hi(vaddr) && vpn_lo(x) == vpn_lo(vaddr))
            implies #[trigger] translate_os(post, root, x)
                == translate_os(mid, root, x) by {
            lemma_os_leaf_frame(mid, post, root, ihi as int, ilo as int, j0 as int, x);
        };
        assert forall|x: u64| !(vpn_hi(x) == vpn_hi(vaddr) && vpn_lo(x) == vpn_lo(vaddr))
            implies #[trigger] byte_at(post, root, x) == byte_at(mid, root, x) by {
            lemma_os_leaf_frame(mid, post, root, ihi as int, ilo as int, j0 as int, x);
        };
    }
}

/// Installing a link from a previously invalid top-level slot to a fresh,
/// empty table changes no walk.
proof fn lemma_os_link_install(
    pre: PhysMem,
    post: PhysMem,
    root: usize,
    ihi: int,
    j0: int,
    x: u64,
)
    requires
        os_wf(pre, root),
        post.base == pre.base,
        post.pages@.len() == pre.pages@.len() + 1,
        j0 == pre.pages@.len(),
        forall|j: int| 0 <= j < pre.pages@.len() && j != root as int
            ==> post.pages@[j] == pre.pages@[j],
        post.is_table(root as int),
        post.tblv(root as int) == pre.tblv(root as int).update(ihi, post.tblv(root as int)[ihi]),
        0 <= ihi < ENTRY_COUNT_2LVL,
        !entry_valid(pre.tblv(root as int)[ihi]),
        entry_is_link(post.tblv(root as int)[ihi]),
        post.idx_of(entry_addr(post.tblv(root as int)[ihi])) == j0,
        post.is_table(j0),
        forall|k: int| 0 <= k < ENTRY_COUNT_2LVL ==> #[trigger] post.tblv(j0)[k] == 0,
    ensures
        translate_os(post, root, x) == translate_os(pre, root, x),
        byte_at(post, root, x) == byte_at(pre, root, x),
{
    lemma_vpn_bounds(x);
    lemma_zero_entry_invalid();
    if vpn_hi(x) == ihi {
        assert(post.tblv(j0)[vpn_lo(x) as int] == 0);
    } else {
        let e1 = pre.tblv(root as int)[vpn_hi(x) as int];
        assert(post.tblv(root as int)[vpn_hi(x) as int] == e1);
        if entry_is_link(e1) {
            assert(os_link_ok(pre, root as int, e1));
            lemma_idx_of(pre, entry_addr(e1));
            let t0 = pre.idx_of(entry_addr(e1));
            assert(t0 != root as int);
            assert(post.pages@[t0] == pre.pages@[t0]);
            let e0 = pre.tblv(t0)[vpn_lo(x) as int];
            if entry_is_leaf(e0) && pre.owns(entry_addr(e0)) {
                lemma_idx_of(pre, entry_addr(e0));
                if pre.idx_of(entry_addr(e0)) != root as int {
                    assert(post.pages@[pre.idx_of(entry_addr(e0))]
                        == pre.pages@[pre.idx_of(entry_addr(e0))]);
                } else {
                    assert(!pre.is_data(root as int) && !post.is_data(root as int));
                }
            } else if entry_is_leaf(e0) && post.owns(entry_addr(e0)) {
                lemma_idx_of(post, entry_addr(e0));
                assert(post.idx_of(entry_addr(e0)) == j0);
            }
        }
    }
}

/// Writing one slot of a second-level table changes only the walks of the
/// addresses whose two indices select exactly that slot.
proof fn lemma_os_leaf_frame(
    mid: PhysMem,
    post: PhysMem,
    root: usize,
    ihi: int,
    ilo: int,
    j0: int,
    x: u64,
)
    requires
        os_wf(mid, root),
        post.base == mid.base,
        post.pages@.len() == mid.pages@.len(),
        forall|j: int| 0 <= j < mid.pages@.len() && j != j0 ==> post.pages@[j] == mid.pages@[j],
        post.is_table(j0),
        post.tblv(j0) == mid.tblv(j0).update(ilo, post.tblv(j0)[ilo]),
        0 <= ihi < ENTRY_COUNT_2LVL,
        0 <= ilo < ENTRY_COUNT_2LVL,
        0 <= j0 < mid.pages@.len(),
        j0 != root as int,
        entry_is_link(mid.tblv(root as int)[ihi]),
        mid.idx_of(entry_addr(mid.tblv(root as int)[ihi])) == j0,
        !(vpn_hi(x) == ihi && vpn_lo(x) == ilo),
    ensures
        translate_os(post, root, x) == translate_os(mid, root, x),
        byte_at(post, root, x) == byte_at(mid, root, x),
{
    lemma_vpn_bounds(x);
    let e1 = mid.tblv(root as int)[vpn_hi(x) as int];
    assert(post.tblv(root as int)[vpn_hi(x) as int] == e1);
    if entry_is_link(e1) {
        assert(os_link_ok(mid, root as int, e1));
        lemma_idx_of(mid, entry_addr(e1));
        let t0 = mid.idx_of(entry_addr(e1));
        if t0 == j0 {
            // the only link whose target is j0 sits at slot ihi
            lemma_idx_of(mid, entry_addr(mid.tblv(root as int)[ihi]));
            assert(mid.page_addr(t0) == entry_addr(e1));
            assert(mid.page_addr(j0) == entry_addr(mid.tblv(root as int)[ihi]));
            assert(entry_addr(e1) == entry_addr(mid.tblv(root as int)[ihi]));
            assert(vpn_hi(x) == ihi);
            assert(vpn_lo(x) != ilo);
            assert(post.tblv(j0)[vpn_lo(x) as int] == mid.tblv(j0)[vpn_lo(x) as int]);
            let e0 = mid.tblv(j0)[vpn_lo(x) as int];
            if entry_is_leaf(e0) && mid.owns(entry_addr(e0)) {
                lemma_idx_of(mid, entry_addr(e0));
                if mid.idx_of(entry_addr(e0)) != j0 {
                    assert(post.pages@[mid.idx_of(entry_addr(e0))]
                        == mid.pages@[mid.idx_of(entry_addr(e0))]);
                } else {
                    assert(!mid.is_data(j0) && !post.is_data(j0));
                }
            }
        } else {
            assert(post.pages@[t0] == mid.pages@[t0]);
            let e0 = mid.tblv(t0)[vpn_lo(x) as int];
            if entry_is_leaf(e0) && mid.owns(entry_addr(e0)) {
                lemma_idx_of(mid, entry_addr(e0));
                if mid.idx_of(entry_addr(e0)) != j0 {
                    assert(post.pages@[mid.idx_of(entry_addr(e0))]
                        == mid.pages@[mid.idx_of(entry_addr(e0))]);
                } else {
                    assert(!mid.is_data(j0) && !post.is_data(j0));
                }
            }
        }
    }
}

/// Walks the two-level table for a virtual address, as the hardware would.
pub fn lookup(m: &PhysMem, root: usize, va: u64) -> (r: Option<(u64, u64)>)
    requires
        os_wf(*m, root),
    ensures
        r == translate_os(*m, root, va),
{
    proof {
        lemma_vpn_bounds(va);
    }
    let ihi = vpn_hi_of(va) as usize;
    let e1 = m.table_entry(root, ihi);
    if is_valid_entry(e1) && !is_leaf_entry(e1) {
        proof {
            assert(os_link_ok(*m, root as int, e1));
            lemma_idx_of(*m, entry_addr(e1));
        }
        let n = m.page_count();
        let jq = (entry_addr_of(e1) - m.base) / PAGE_SIZE;
        proof {
            assert(n == m.pages@.len());
            assert(jq == m.idx_of(entry_addr(e1)));
            assert(jq < n as u64);
        }
        let j0 = jq as usize;
        let e0 = m.table_entry(j0, vpn_lo_of(va) as usize);
        if is_leaf_entry(e0) {
            proof {
                lemma_entry_addr_bound(e0);
            }
            Some((entry_addr_of(e0) + va % PAGE_SIZE, e0 & 0xFFE))
        } else {
            None
        }
    } else {
        proof {
            if entry_is_leaf(e1) {
                assert(!entry_is_leaf(m.tblv(root as int)[vpn_hi(va) as int]));
            }
        }
        None
    }
}

/// Reads the byte a virtual address maps to, when its mapping lands in a
/// data page of the arena.
pub fn read_mapped_byte(m: &PhysMem, root: usize, va: u64) -> (r: Option<u8>)
    requires
        os_wf(*m, root),
    ensures
        r == byte_at(*m, root, va),
{
    proof {
        lemma_vpn_bounds(va);
    }
    let ihi = vpn_hi_of(va) as usize;
    let e1 = m.table_entry(root, ihi);
    if is_valid_entry(e1) && !is_leaf_entry(e1) {
        proof {
            assert(os_link_ok(*m, root as int, e1));
            lemma_idx_of(*m, entry_addr(e1));
        }
        let n = m.page_count();
        let jq = (entry_addr_of(e1) - m.base) / PAGE_SIZE;
        proof {
            assert(n == m.pages@.len());
            assert(jq == m.idx_of(entry_addr(e1)));
            assert(jq < n as u64);
        }
        let j0 = jq as usize;
        let e0 = m.table_entry(j0, vpn_lo_of(va) as usize);
        if is_leaf_entry(e0) {
            let pb = entry_addr_of(e0);
            let in_range = m.base <= pb && {
                let nb = m.page_count();
                proof {
                    assert(nb == m.pages@.len());
                }
                (pb - m.base) / PAGE_SIZE < nb as u64 && (pb - m.base) % PAGE_SIZE == 0
            };
            if in_range {
                proof {
                    assert(m.owns(pb)) by {
                        assert((pb - m.base) / 4096 < m.pages@.len());
                        vstd::arithmetic::div_mod::lemma_fundamental_div_mod(
                            (pb - m.base) as int, 4096);
                    };
                    lemma_idx_of(*m, pb);
                }
                let n2 = m.page_count();
                let pidx = ((pb - m.base) / PAGE_SIZE) as usize;
                proof {
                    assert(pidx as int == m.idx_of(pb));
                }
                let is_data_page = match &m.pages[pidx] {
                    PageContent::Data { .. } => true,
                    PageContent::Table { .. } => false,
                };
                if is_data_page {
                    Some(m.read_byte(pb, (va % PAGE_SIZE) as usize))
                } else {
                    None
                }
            } else {
                proof {
                    assert(!m.owns(pb));
                }
                None
            }
        } else {
            None
        }
    } else {
        proof {
            if entry_is_leaf(e1) {
                assert(!entry_is_leaf(m.tblv(root as int)[vpn_hi(va) as int]));
            }
        }
        None
    }
}

/// The Sv32 hardware form of an entry: the physical page number in bits
/// 31:10 over the permission and validity bits in 9:0. An address beyond
/// the 22-bit page-number field is cut to it, as the 32-bit format forces.
pub open spec fn sv32_of(e: u64) -> u32 {
    ((((e >> 12) << 10) | (e & 0x3FF)) & 0xFFFF_FFFF) as u32
}

/// Packs one entry into its Sv32 hardware form.
pub fn sv32_entry(e: u64) -> (r: u32)
    ensures
        r == sv32_of(e),
{
    ((((e >> 12) << 10) | (e & 0x3FF)) & 0xFFFF_FFFF) as u32
}

/// The 4096-byte Sv32 image of the table in page `j`: its 1024 entries
/// packed as little-endian 32-bit words, exactly one physical page, as the
/// hardware walker reads it.
pub fn sv32_table_image(m: &PhysMem, j: usize) -> (v: Vec<u8>)
    requires
        m.arena_wf(),
        (j as int) < m.pages@.len(),
        m.is_table(j as int),
    ensures
        v@.len() == 4096,
        forall|k: int, b: int| 0 <= k < ENTRY_COUNT_2LVL && 0 <= b < 4
            ==> #[trigger] v@[4 * k + b]
                == ((sv32_of(m.tblv(j as int)[k]) >> ((8 * b) as u32)) & 0xFF) as u8,
{
    let mut v: Vec<u8> = Vec::new();
    let mut k: usize = 0;
    while k < ENTRY_COUNT_2LVL
        invariant
            m.arena_wf(),
            (j as int) < m.pages@.len(),
            m.is_table(j as int),
            k <= ENTRY_COUNT_2LVL,
            v@.len() == 4 * k,
            forall|k2: int, b: int| 0 <= k2 < k && 0 <= b < 4 ==> #[trigger] v@[4 * k2 + b]
                == ((sv32_of(m.tblv(j as int)[k2]) >> ((8 * b) as u32)) & 0xFF) as u8,
        decreases ENTRY_COUNT_2LVL - k,
    {
        let w = sv32_entry(m.table_entry(j, k));
        let ghost vp = v@;
        v.push((w & 0xFF) as u8);
        v.push(((w >> 8) & 0xFF) as u8);
        v.push(((w >> 16) & 0xFF) as u8);
        v.push(((w >> 24) & 0xFF) as u8);
        proof {
            assert((w >> 0u32) & 0xFFu32 == w & 0xFFu32) by (bit_vector);
            assert forall|k2: int, b: int| 0 <= k2 < k + 1 && 0 <= b < 4
                implies #[trigger] v@[4 * k2 + b]
                    == ((sv32_of(m.tblv(j as int)[k2]) >> ((8 * b) as u32)) & 0xFF) as u8 by {
                if k2 < k {
                    assert(v@[4 * k2 + b] == vp[4 * k2 + b]);
                } else {
                    if b == 0 {
                        assert(v@[4 * k2 + b] == (w & 0xFF) as u8);
                    } else if b == 1 {
                        assert(v@[4 * k2 + b] == ((w >> 8) & 0xFF) as u8);
                    } else if b == 2 {
                        assert(v@[4 * k2 + b] == ((w >> 16) & 0xFF) as u8);
                    } else {
                        assert(v@[4 * k2 + b] == ((w >> 24) & 0xFF) as u8);
                    }
                }
            };
        }
        k = k + 1;
    }
    v
}

} // verus!
