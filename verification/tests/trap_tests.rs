//! Demand paging: the fault at an unmapped page, and its idempotence.

use ceno_boot::phys::PhysMem;
use ceno_boot::os::{lookup, read_mapped_byte};
use ceno_boot::trap::{handle_exception, TrapCause, TrapOutcome};
use ceno_boot::pte::{PTE_R, PTE_W, PTE_U};

fn fresh_space() -> (PhysMem, usize) {
    let mut m = PhysMem::new(0x10_0000);
    let _root_pa = m.allocate_table();
    (m, 0)
}

#[test]
fn scenario_load_fault_maps_zero_page() {
    // a load page fault at 0x2000_0034 maps the page 0x2000_0000 to a fresh
    // zeroed page with user, read and write permission
    let (mut m, root) = fresh_space();
    let o = handle_exception(&mut m, root, TrapCause::LoadPageFault, 0x2000_0034);
    match o {
        TrapOutcome::Mapped { vaddr, paddr } => {
            assert_eq!(vaddr, 0x2000_0000);
            assert_eq!(paddr % 4096, 0);
        }
        _ => panic!("expected a fresh mapping"),
    }
    let (_pa, perm) = lookup(&m, root, 0x2000_0000).unwrap();
    assert_eq!(perm, PTE_U | PTE_R | PTE_W);
    // the simulated read at the faulting address returns zero
    assert_eq!(read_mapped_byte(&m, root, 0x2000_0034), Some(0));
}

#[test]
fn second_fault_in_same_page_is_a_no_op() {
    let (mut m, root) = fresh_space();
    let o1 = handle_exception(&mut m, root, TrapCause::StorePageFault, 0x2000_0034);
    assert!(matches!(o1, TrapOutcome::Mapped { .. }));
    let count = m.page_count();
    let pa1 = lookup(&m, root, 0x2000_0000).unwrap().0;
    // a second fault anywhere within the same page allocates nothing
    let o2 = handle_exception(&mut m, root, TrapCause::LoadPageFault, 0x2000_0FFF);
    assert_eq!(o2, TrapOutcome::AlreadyMapped);
    assert_eq!(m.page_count(), count);
    assert_eq!(lookup(&m, root, 0x2000_0000).unwrap().0, pa1);
}

#[test]
fn other_causes_are_ignored() {
    let (mut m, root) = fresh_space();
    let count = m.page_count();
    let o = handle_exception(&mut m, root, TrapCause::Other, 0x2000_0034);
    assert_eq!(o, TrapOutcome::Ignored);
    assert_eq!(m.page_count(), count);
    assert_eq!(lookup(&m, root, 0x2000_0000), None);
}
