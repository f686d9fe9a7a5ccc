//! A verified model of a bare-metal boot loader's virtual-memory and
//! program-loading core: physical page allocation, hierarchical page-table
//! construction at multiple granularities, ELF segment loading with
//! zero-filled tails, demand paging, and the launch register values.

pub mod pte;
pub mod trap;
pub mod console;
pub mod discovery;
pub mod elf;
pub mod guest;
pub mod launch;
pub mod loader;
pub mod os;
pub mod phys;

use vstd::prelude::*;

verus! {

/// Rounds an address up to the next page boundary.
pub fn page_round_up(addr: u64) -> (r: u64)
    requires
        addr + crate::pte::PAGE_SIZE <= u64::MAX,
    ensures
        r % crate::pte::PAGE_SIZE == 0,
        addr <= r < addr + crate::pte::PAGE_SIZE,
{
    if addr % crate::pte::PAGE_SIZE == 0 {
        addr
    } else {
        addr + (crate::pte::PAGE_SIZE - addr % crate::pte::PAGE_SIZE)
    }
}

} // verus!
