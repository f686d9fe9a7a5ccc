//! The three-level table: round trips, greedy granularity, and the guest
//! address space.

use ceno_boot::guest::{
    allocate_page_table, count_root_leaves, create_guest_page_table, lookup, map_region,
    table_count,
};
use ceno_boot::pte::{PTE_R, PTE_W, PTE_X, PTE_U};

#[test]
fn round_trip_single_page() {
    let mut t = allocate_page_table();
    // one page, permission read+execute+user
    map_region(&mut t, 0x4000_0000, 0x8000_0000, PTE_U | PTE_R | PTE_X, 4096);
    assert_eq!(lookup(&t, 0x4000_0000), Some((0x8000_0000, PTE_U | PTE_R | PTE_X)));
    assert_eq!(lookup(&t, 0x4000_0ABC), Some((0x8000_0ABC, PTE_U | PTE_R | PTE_X)));
    assert_eq!(lookup(&t, 0x4000_1000), None);
    assert_eq!(lookup(&t, 0x3FFF_F000), None);
}

#[test]
fn round_trip_mixed_granularity() {
    let mut t = allocate_page_table();
    map_region(&mut t, 0x8000_0000, 0x8000_0000, PTE_R | PTE_W, 0x4000_0000 + 0x20_0000);
    // inside the 1 GiB chunk
    assert_eq!(lookup(&t, 0x8123_4567), Some((0x8123_4567, PTE_R | PTE_W)));
    // inside the trailing 2 MiB chunk
    assert_eq!(lookup(&t, 0xC000_0000), Some((0xC000_0000, PTE_R | PTE_W)));
    assert_eq!(lookup(&t, 0xC01F_FFFF), Some((0xC01F_FFFF, PTE_R | PTE_W)));
    assert_eq!(lookup(&t, 0xC020_0000), None);
}

#[test]
fn greedy_aligned_region_uses_only_top_leaves() {
    let mut t = allocate_page_table();
    // start, physical base and size all aligned to 1 GiB: two top leaves
    map_region(&mut t, 0x4000_0000, 0x1_0000_0000, PTE_R | PTE_W, 0x8000_0000);
    assert_eq!(count_root_leaves(&t), 2);
    // no intermediate table was allocated
    assert_eq!(table_count(&t), 1);
    assert_eq!(lookup(&t, 0x4000_0000), Some((0x1_0000_0000, PTE_R | PTE_W)));
    assert_eq!(lookup(&t, 0xBFFF_FFFF), Some((0x1_7FFF_FFFF, PTE_R | PTE_W)));
    assert_eq!(lookup(&t, 0xC000_0000), None);
}

#[test]
fn greedy_misaligned_ends_fall_back_to_small_pages() {
    let mut t = allocate_page_table();
    // one page before a 1 GiB boundary, two whole 1 GiB units, one page after
    let start: u64 = 0x4000_0000 - 4096;
    let size: u64 = 4096 + 0x8000_0000 + 4096;
    map_region(&mut t, start, start, PTE_R | PTE_W, size);
    // the middle is served by exactly two top-level leaves
    assert_eq!(count_root_leaves(&t), 2);
    // the boundary pages need intermediate tables on both sides
    assert!(table_count(&t) >= 3);
    assert_eq!(lookup(&t, start), Some((start, PTE_R | PTE_W)));
    assert_eq!(lookup(&t, 0x4000_0000), Some((0x4000_0000, PTE_R | PTE_W)));
    assert_eq!(lookup(&t, 0xC000_0000), Some((0xC000_0000, PTE_R | PTE_W)));
    assert_eq!(lookup(&t, 0xC000_1000), None);
}

#[test]
fn last_write_wins_on_remap() {
    let mut t = allocate_page_table();
    map_region(&mut t, 0x1000, 0x10_0000_0000, PTE_R | PTE_W, 4096);
    map_region(&mut t, 0x1000, 0x20_0000_0000, PTE_R | PTE_X, 4096);
    assert_eq!(lookup(&t, 0x1000), Some((0x20_0000_0000, PTE_R | PTE_X)));
}

#[test]
fn guest_address_space_layout() {
    let t = create_guest_page_table(0x1_0000_0000);
    // RAM region, read-write, offset into the physical range
    assert_eq!(lookup(&t, 0x8000_0000), Some((0x1_0000_0000, PTE_R | PTE_W)));
    assert_eq!(lookup(&t, 0x8000_1234), Some((0x1_0000_1234, PTE_R | PTE_W)));
    assert_eq!(lookup(&t, 0xFFFE_FFFF), Some((0x1_7FFE_FFFF, PTE_R | PTE_W)));
    assert_eq!(lookup(&t, 0xFFFF_0000), None);
    // ROM region, read-only, after the RAM range
    assert_eq!(lookup(&t, 0x2000_0000), Some((0x1_7FFF_0000, PTE_R)));
    assert_eq!(lookup(&t, 0x2FFF_FFFF), Some((0x1_8FFE_FFFF, PTE_R)));
    assert_eq!(lookup(&t, 0x3000_0000), None);
    assert_eq!(lookup(&t, 0x1FFF_F000), None);
    assert_eq!(lookup(&t, 0), None);
}
