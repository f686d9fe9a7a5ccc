//! The privilege transition, as values: what the boot programs into the
//! hardware to hand control to the payload. The register writes, the
//! translation-cache flush and the mode-return instruction themselves are
//! performed by the surrounding program, strictly in this order: install the
//! translation control value, flush, set the resume address, set the target
//! privilege, set the stack pointer, return.

use vstd::prelude::*;
use crate::pte::PAGE_SIZE;

verus! {

/// Mode bit of the translation control register selecting two-level paging.
pub const SATP_MODE_SV32: u64 = 0x8000_0000;

/// The fixed virtual stack top handed to the payload; expected to be mapped
/// by the time it is used.
pub const BOOT_STACK_TOP: u64 = 0x8000_0000;

/// Exclusive bound on root-table addresses the translation control register
/// can carry: its physical page number field holds 22 bits.
pub const SATP_ROOT_LIMIT: u64 = 0x4_0000_0000;

/// The values the privilege transition programs, in order: the translation
/// control value, the resume address, the stack pointer, and the target
/// privilege.
#[derive(Clone, Copy, PartialEq, Eq, Structural, Debug)]
pub struct LaunchPlan {
    /// Value for the address-translation control register: the paging mode
    /// and the root table's physical page number.
    pub satp: u64,
    /// The resume address: the payload's entry point.
    pub entry: u64,
    /// The initial stack pointer handed to the payload.
    pub stack_pointer: u64,
    /// The transition lowers privilege to user mode.
    pub user_mode: bool,
}

/// Computes the launch values for a built root table and an entry point:
/// the translation control value carries the two-level paging mode in its
/// top bit and the root table's page number below it.
pub fn prepare_launch(root_addr: u64, entry: u64) -> (p: LaunchPlan)
    requires
        root_addr % PAGE_SIZE == 0,
        root_addr < SATP_ROOT_LIMIT,
    ensures
        p.satp == SATP_MODE_SV32 + root_addr / PAGE_SIZE,
        p.satp == (SATP_MODE_SV32 | (root_addr >> 12)),
        p.entry == entry,
        p.stack_pointer == BOOT_STACK_TOP,
        p.user_mode,
{
    proof {
        assert((0x8000_0000u64 | (root_addr >> 12)) == 0x8000_0000u64 + root_addr / 4096u64)
            by (bit_vector)
            requires
                root_addr < 0x4_0000_0000u64,
        ;
    }
    LaunchPlan {
        satp: SATP_MODE_SV32 | (root_addr >> 12),
        entry,
        stack_pointer: BOOT_STACK_TOP,
        user_mode: true,
    }
}

} // verus!
