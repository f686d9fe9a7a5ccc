//! Demand paging: the decision the trap handler takes on each exception.
//!
//! On a load or store page fault the handler backs the faulting virtual page
//! with one freshly zeroed physical page, mapped user-readable and writable
//! regardless of any original segment permission — a coarse policy meant for
//! stack and heap growth. A fault at a page that is already mapped is a
//! no-op, so a second fault in the same page never allocates again. Every
//! other trap cause is reported and otherwise ignored.

use vstd::prelude::*;
use crate::phys::PhysMem;
use crate::os::{os_wf, translate_os, byte_at, lookup, map_region, VA_LIMIT_2LVL};
use crate::pte::{PAGE_SIZE, PHYS_ADDR_LIMIT, PTE_U, PTE_R, PTE_W, leaf_flags_ok};

verus! {

/// The trap causes the handler distinguishes.
#[derive(Clone, Copy, PartialEq, Eq, Structural, Debug)]
pub enum TrapCause {
    /// A load faulted on a missing mapping.
    LoadPageFault,
    /// A store faulted on a missing mapping.
    StorePageFault,
    /// Any other exception or interrupt cause.
    Other,
}

/// What the handler did.
#[derive(Clone, Copy, PartialEq, Eq, Structural, Debug)]
pub enum TrapOutcome {
    /// A fresh zero page now backs the faulting page.
    Mapped { vaddr: u64, paddr: u64 },
    /// The faulting page was already mapped; nothing changed.
    AlreadyMapped,
    /// The cause was not a page fault; nothing changed.
    Ignored,
}

/// The base of the page an address falls in.
pub open spec fn page_base(a: u64) -> u64 {
    (a - a % PAGE_SIZE) as u64
}

/// Computes the page base, by masking the offset bits off.
pub fn page_base_of(a: u64) -> (r: u64)
    ensures
        r == page_base(a),
        r % PAGE_SIZE == 0,
        r <= a < r + PAGE_SIZE,
{
    proof {
        assert((a & !0xFFFu64) == a - a % 4096 && (a & !0xFFFu64) % 4096 == 0
            && a - a % 4096 <= a && a < (a - a % 4096) + 4096) by (bit_vector);
    }
    a & !0xFFF
}

/// The permission bits every demand-faulted page receives.
pub open spec fn demand_flags() -> u64 {
    PTE_U | PTE_R | PTE_W
}

/// How one page fault transforms the arena: if the faulting page is already
/// mapped, nothing changes at all; otherwise exactly one fresh zero page
/// backs it, mapped user-readable and writable, and every other translation
/// and byte is untouched.
pub open spec fn demand_fault_step(
    pre: PhysMem,
    post: PhysMem,
    root: usize,
    fault_addr: u64,
    o: TrapOutcome,
) -> bool {
    let page = page_base(fault_addr);
    if translate_os(pre, root, page) is Some {
        &&& post == pre
        &&& o == TrapOutcome::AlreadyMapped
    } else {
        match o {
            TrapOutcome::Mapped { vaddr, paddr } => {
                &&& vaddr == page
                &&& os_wf(post, root)
                &&& post.base == pre.base
                &&& pre.pages@.len() + 1 <= post.pages@.len() <= pre.pages@.len() + 2
                &&& paddr == pre.page_addr(pre.pages@.len() as int)
                &&& post.is_data(pre.pages@.len() as int)
                &&& forall|j: int| pre.pages@.len() < j < post.pages@.len()
                    ==> post.is_table(j)
                &&& forall|x: u64| page <= x < page + PAGE_SIZE
                    ==> #[trigger] translate_os(post, root, x)
                        == Some((((paddr + (x - page)) as u64), demand_flags()))
                &&& forall|x: u64| page <= x < page + PAGE_SIZE
                    ==> #[trigger] byte_at(post, root, x) == Some(0u8)
                &&& forall|x: u64| x < VA_LIMIT_2LVL && !(page <= x < page + PAGE_SIZE)
                    ==> #[trigger] translate_os(post, root, x) == translate_os(pre, root, x)
                &&& forall|x: u64| x < VA_LIMIT_2LVL && !(page <= x < page + PAGE_SIZE)
                    && byte_at(pre, root, x) is Some
                    ==> #[trigger] byte_at(post, root, x) == byte_at(pre, root, x)
            },
            _ => false,
        }
    }
}

/// Handles one trap against the active root table: a load or store page
/// fault lazily backs the faulting page, anything else is ignored.
pub fn handle_exception(
    m: &mut PhysMem,
    root: usize,
    cause: TrapCause,
    fault_addr: u64,
) -> (o: TrapOutcome)
    requires
        os_wf(*old(m), root),
        fault_addr < VA_LIMIT_2LVL,
        old(m).base + (old(m).pages@.len() + 2) * 4096 <= PHYS_ADDR_LIMIT,
    ensures
        os_wf(*final(m), root),
        cause != TrapCause::Other
            ==> demand_fault_step(*old(m), *final(m), root, fault_addr, o),
        cause == TrapCause::Other ==> (*final(m) == *old(m) && o == TrapOutcome::Ignored),
{
    match cause {
        TrapCause::LoadPageFault | TrapCause::StorePageFault => {
            let page = page_base_of(fault_addr);
            let existing = lookup(m, root, page);
            if existing.is_some() {
                return TrapOutcome::AlreadyMapped;
            }
            let ghost pre = *m;
            let pa = m.allocate_page();
            let ghost mid = *m;
            proof {
                assert(leaf_flags_ok(demand_flags())) by (bit_vector);
                assert(os_wf(mid, root)) by {
                    assert(mid.tblv(root as int) == pre.tblv(root as int));
                    assert forall|k: int| 0 <= k < crate::phys::ENTRY_COUNT_2LVL
                        implies !crate::pte::entry_is_leaf(
                            #[trigger] mid.tblv(root as int)[k])
                            && crate::os::os_link_ok(mid, root as int,
                                mid.tblv(root as int)[k]) by {
                        assert(crate::os::os_link_ok(pre, root as int,
                            pre.tblv(root as int)[k]));
                        let e = pre.tblv(root as int)[k];
                        if crate::pte::entry_is_link(e) {
                            crate::phys::lemma_idx_of(pre, crate::pte::entry_addr(e));
                            assert(mid.pages@[pre.idx_of(crate::pte::entry_addr(e))]
                                == pre.pages@[pre.idx_of(crate::pte::entry_addr(e))]);
                        }
                    };
                };
            }
            map_region(m, root, page, pa, PTE_U | PTE_R | PTE_W, PAGE_SIZE);
            proof {
                let post = *m;
                let new_idx = pre.pages@.len() as int;
                assert(post.pages@[new_idx] == mid.pages@[new_idx]);
                assert(post.is_data(new_idx) && post.datav(new_idx)
                    == Seq::new(4096nat, |i: int| 0u8));
                crate::phys::lemma_idx_of(post, pa);
                assert(post.idx_of(pa) == new_idx);
                assert forall|x: u64| page <= x < page + PAGE_SIZE
                    implies #[trigger] byte_at(post, root, x) == Some(0u8) by {
                    crate::pte::lemma_vpn_bounds(x);
                    assert(translate_os(post, root, x)
                        == Some((((pa + (x - page)) as u64), demand_flags())));
                    lemma_byte_of_translate(post, root, x, pa, demand_flags());
                };
                assert forall|x: u64| x < VA_LIMIT_2LVL && !(page <= x < page + PAGE_SIZE)
                    implies #[trigger] translate_os(post, root, x)
                        == translate_os(pre, root, x) by {
                    crate::os::lemma_os_frame(pre, mid, root, x);
                };
                assert forall|x: u64| x < VA_LIMIT_2LVL && !(page <= x < page + PAGE_SIZE)
                    && byte_at(pre, root, x) is Some
                    implies #[trigger] byte_at(post, root, x) == byte_at(pre, root, x) by {
                    crate::os::lemma_os_frame(pre, mid, root, x);
                };
            }
            TrapOutcome::Mapped { vaddr: page, paddr: pa }
        },
        TrapCause::Other => TrapOutcome::Ignored,
    }
}

/// When a page's mapping points at a zeroed data page of the arena, every
/// byte read through it is zero.
proof fn lemma_byte_of_translate(m: PhysMem, root: usize, x: u64, pb: u64, fl: u64)
    requires
        os_wf(m, root),
        pb % PAGE_SIZE == 0,
        pb < PHYS_ADDR_LIMIT,
        m.owns(pb),
        m.is_data(m.idx_of(pb)),
        m.datav(m.idx_of(pb)) == Seq::new(4096nat, |i: int| 0u8),
        translate_os(m, root, x) == Some((((pb + x % PAGE_SIZE) as u64), fl)),
    ensures
        byte_at(m, root, x) == Some(0u8),
{
    crate::pte::lemma_vpn_bounds(x);
    let e1 = m.tblv(root as int)[crate::pte::vpn_hi(x) as int];
    assert(crate::pte::entry_is_link(e1));
    let e0 = m.tblv(m.idx_of(crate::pte::entry_addr(e1)))[crate::pte::vpn_lo(x) as int];
    assert(crate::pte::entry_is_leaf(e0));
    crate::pte::lemma_entry_addr_bound(e0);
    assert(crate::pte::entry_addr(e0) == pb);
}

/// Demand-paging idempotence: after a fault in some page is handled, a
/// second fault at any address within the same page changes nothing — the
/// arena is exactly as the first fault left it, no page is allocated again,
/// and the page's mapping is the one the first fault installed.
pub proof fn lemma_demand_idempotent(
    m0: PhysMem,
    m1: PhysMem,
    m2: PhysMem,
    root: usize,
    a1: u64,
    a2: u64,
    o1: TrapOutcome,
    o2: TrapOutcome,
)
    requires
        page_base(a1) == page_base(a2),
        demand_fault_step(m0, m1, root, a1, o1),
        demand_fault_step(m1, m2, root, a2, o2),
    ensures
        m2 == m1,
        o2 == TrapOutcome::AlreadyMapped,
        m2.pages@.len() == m1.pages@.len(),
        translate_os(m2, root, page_base(a1)) is Some,
{
    let page = page_base(a1);
    if translate_os(m0, root, page) is Some {
        assert(m1 == m0);
    } else {
        assert(page <= page < page + PAGE_SIZE);
        match o1 {
            TrapOutcome::Mapped { vaddr, paddr } => {
                assert(translate_os(m1, root, page)
                    == Some((((paddr + (page - page)) as u64), demand_flags())));
            },
            _ => {
                assert(false);
            },
        }
    }
    assert(translate_os(m1, root, page) is Some);
}

} // verus!
