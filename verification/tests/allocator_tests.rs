//! The physical page allocator: monotonic, unique, zero-filled.

use ceno_boot::phys::PhysMem;

#[test]
fn addresses_are_unique_and_monotonic() {
    let mut m = PhysMem::new(0x10_0000);
    let a = m.allocate_page();
    let b = m.allocate_table();
    let c = m.allocate_page();
    assert_eq!(a, 0x10_0000);
    assert_eq!(b, 0x10_1000);
    assert_eq!(c, 0x10_2000);
    assert!(a != b && b != c && a != c);
    assert_eq!(m.page_count(), 3);
}

#[test]
fn allocation_base_rounds_up_to_a_page() {
    let mut m = PhysMem::new(0x10_0001);
    let a = m.allocate_page();
    assert_eq!(a, 0x10_1000);
    assert_eq!(a % 4096, 0);
}

#[test]
fn pages_are_zero_on_return() {
    let mut m = PhysMem::new(0x10_0000);
    let a = m.allocate_page();
    for off in [0usize, 1, 17, 2048, 4095] {
        assert_eq!(m.read_byte(a, off), 0);
    }
}
