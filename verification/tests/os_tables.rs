//! The two-level table: round trips and last-write-wins.

use ceno_boot::os::{lookup, map_region, sv32_table_image};
use ceno_boot::phys::PhysMem;
use ceno_boot::pte::{PTE_R, PTE_W, PTE_X, PTE_U};

fn fresh_space() -> (PhysMem, usize) {
    let mut m = PhysMem::new(0x10_0000);
    let _root_pa = m.allocate_table();
    (m, 0)
}

#[test]
fn os_round_trip_two_pages() {
    let (mut m, root) = fresh_space();
    map_region(&mut m, root, 0x4000_0000, 0x8000_0000, PTE_U | PTE_R, 8192);
    assert_eq!(lookup(&m, root, 0x4000_0000), Some((0x8000_0000, PTE_U | PTE_R)));
    assert_eq!(lookup(&m, root, 0x4000_1FFF), Some((0x8000_1FFF, PTE_U | PTE_R)));
    assert_eq!(lookup(&m, root, 0x4000_2000), None);
    assert_eq!(lookup(&m, root, 0x3FFF_F000), None);
}

#[test]
fn os_last_write_wins() {
    let (mut m, root) = fresh_space();
    map_region(&mut m, root, 0x7000, 0x20_0000, PTE_R | PTE_W, 4096);
    map_region(&mut m, root, 0x7000, 0x30_0000, PTE_R | PTE_X, 4096);
    assert_eq!(lookup(&m, root, 0x7000), Some((0x30_0000, PTE_R | PTE_X)));
}

#[test]
fn sv32_image_packs_entries_into_one_page() {
    let (mut m, root) = fresh_space();
    map_region(&mut m, root, 0x1000, 0x20_0000, PTE_R, 4096);
    // the root's first slot links to the table page at 0x10_1000:
    // page number 0x101 over the validity bit, little endian
    let root_image = sv32_table_image(&m, root);
    assert_eq!(root_image.len(), 4096);
    assert_eq!(&root_image[0..4], &[0x01, 0x04, 0x04, 0x00]);
    // every unused slot packs to zero
    assert_eq!(&root_image[4..8], &[0, 0, 0, 0]);
    // the second-level table holds the leaf for 0x1000 in its slot 1:
    // page number 0x200 over read and valid bits
    let leaf_image = sv32_table_image(&m, 1);
    assert_eq!(&leaf_image[4..8], &[0x03, 0x00, 0x08, 0x00]);
}

#[test]
fn os_shared_top_slot_reuses_one_table() {
    let (mut m, root) = fresh_space();
    let before = m.page_count();
    // two pages under the same top-level slot need only one second-level table
    map_region(&mut m, root, 0x1000, 0x20_0000, PTE_R, 4096);
    map_region(&mut m, root, 0x3000, 0x30_0000, PTE_R, 4096);
    assert_eq!(m.page_count(), before + 1);
    assert_eq!(lookup(&m, root, 0x1000), Some((0x20_0000, PTE_R)));
    assert_eq!(lookup(&m, root, 0x3000), Some((0x30_0000, PTE_R)));
    assert_eq!(lookup(&m, root, 0x2000), None);
}
