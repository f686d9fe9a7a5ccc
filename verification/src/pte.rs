//! Page-table-entry encoding and virtual-address index extraction.
//!
//! Both paging profiles (the three-level one with huge pages and the strict
//! two-level 4 KiB one) share this entry format: a valid bit, permission bits,
//! and the physical address packed into the high bits of one `u64`.

use vstd::prelude::*;

verus! {

/// Size in bytes of one physical page, the smallest mapping granularity.
pub const PAGE_SIZE: u64 = 4096;

/// Size in bytes of one mid-level huge page (2 MiB).
pub const L1_PAGE_SIZE: u64 = 0x20_0000;

/// Size in bytes of one top-level huge page (1 GiB).
pub const L2_PAGE_SIZE: u64 = 0x4000_0000;

/// Validity bit of a page-table entry.
pub const PTE_V: u64 = 1;

/// Readable bit of a page-table entry.
pub const PTE_R: u64 = 2;

/// Writable bit of a page-table entry.
pub const PTE_W: u64 = 4;

/// Executable bit of a page-table entry.
pub const PTE_X: u64 = 8;

/// User-accessible bit of a page-table entry.
pub const PTE_U: u64 = 16;

/// Mask selecting the physical-address bits of an entry (bits 12 to 47).
pub const PTE_ADDR_MASK: u64 = 0xFFFF_FFFF_F000;

/// Exclusive upper bound of the physical addresses an entry can carry.
pub const PHYS_ADDR_LIMIT: u64 = 0x1_0000_0000_0000;

/// An entry takes part in translation only when its validity bit is set.
pub open spec fn entry_valid(e: u64) -> bool {
    e & PTE_V == 1
}

/// A valid entry is a leaf exactly when it carries at least one of the
/// read, write or execute permissions.
pub open spec fn entry_is_leaf(e: u64) -> bool {
    e & PTE_V == 1 && e & (PTE_R | PTE_W | PTE_X) != 0
}

/// A valid entry without read, write or execute is a link to a next-level table.
pub open spec fn entry_is_link(e: u64) -> bool {
    e & PTE_V == 1 && e & (PTE_R | PTE_W | PTE_X) == 0
}

/// The physical address packed into an entry.
pub open spec fn entry_addr(e: u64) -> u64 {
    e & PTE_ADDR_MASK
}

/// The permission bits of an entry: everything between the validity bit and
/// the address bits.
pub open spec fn entry_perm(e: u64) -> u64 {
    e & 0xFFE
}

/// Permission flags acceptable in a mapping request: only bits below the
/// address field, no validity bit, and at least one of read/write/execute so
/// that the installed entry is a leaf.
pub open spec fn leaf_flags_ok(flags: u64) -> bool {
    &&& flags & PTE_V == 0
    &&& flags < 4096
    &&& flags & (PTE_R | PTE_W | PTE_X) != 0
}

/// Top-level index of the three-level scheme (bits 30 to 38).
pub open spec fn vpn2(va: u64) -> u64 {
    (va >> 30) & 0x1FF
}

/// Middle index of the three-level scheme (bits 21 to 29).
pub open spec fn vpn1(va: u64) -> u64 {
    (va >> 21) & 0x1FF
}

/// Bottom index of the three-level scheme (bits 12 to 20).
pub open spec fn vpn0(va: u64) -> u64 {
    (va >> 12) & 0x1FF
}

/// Top-level index of the two-level scheme (bits 22 to 31).
pub open spec fn vpn_hi(va: u64) -> u64 {
    (va >> 22) & 0x3FF
}

/// Bottom index of the two-level scheme (bits 12 to 21).
pub open spec fn vpn_lo(va: u64) -> u64 {
    (va >> 12) & 0x3FF
}

/// Packs a leaf entry: the physical address, the permission flags, and the
/// validity bit.
pub fn make_leaf_entry(pa: u64, flags: u64) -> (e: u64)
    requires
        pa % PAGE_SIZE == 0,
        pa < PHYS_ADDR_LIMIT,
        leaf_flags_ok(flags),
    ensures
        entry_is_leaf(e),
        !entry_is_link(e),
        entry_addr(e) == pa,
        entry_perm(e) == flags,
        e < PHYS_ADDR_LIMIT,
{
    let e = pa | flags | PTE_V;
    proof {
        assert(PTE_R | PTE_W | PTE_X == 0xEu64) by (bit_vector);
        assert((pa | flags | 1u64) & 1u64 == 1u64
            && ((pa | flags | 1u64) & 0xEu64 == 0u64 <==> flags & 0xEu64 == 0u64)
            && (pa | flags | 1u64) & 0xFFFF_FFFF_F000u64 == pa
            && (pa | flags | 1u64) & 0xFFEu64 == flags
            && (pa | flags | 1u64) < 0x1_0000_0000_0000u64) by (bit_vector)
            requires
                pa % 4096u64 == 0,
                pa < 0x1_0000_0000_0000u64,
                flags & 1u64 == 0,
                flags < 4096u64,
        ;
    }
    e
}

/// Packs a link entry: the physical address of the next-level table and the
/// validity bit, with no permission bits.
pub fn make_link_entry(table_addr: u64) -> (e: u64)
    requires
        table_addr % PAGE_SIZE == 0,
        table_addr < PHYS_ADDR_LIMIT,
    ensures
        entry_is_link(e),
        !entry_is_leaf(e),
        entry_addr(e) == table_addr,
        e < PHYS_ADDR_LIMIT,
{
    let e = table_addr | PTE_V;
    proof {
        assert(PTE_R | PTE_W | PTE_X == 0xEu64) by (bit_vector);
        assert((table_addr | 1u64) & 1u64 == 1u64
            && (table_addr | 1u64) & 0xEu64 == 0u64
            && (table_addr | 1u64) & 0xFFFF_FFFF_F000u64 == table_addr
            && (table_addr | 1u64) < 0x1_0000_0000_0000u64) by (bit_vector)
            requires
                table_addr % 4096u64 == 0,
                table_addr < 0x1_0000_0000_0000u64,
        ;
    }
    e
}

/// The zero entry is invalid.
pub proof fn lemma_zero_entry_invalid()
    ensures
        !entry_valid(0),
        !entry_is_leaf(0),
        !entry_is_link(0),
{
    assert(0u64 & 1u64 == 0u64) by (bit_vector);
}

/// Extracts the next-level table address from a link entry.
pub fn entry_addr_of(e: u64) -> (r: u64)
    ensures
        r == entry_addr(e),
{
    e & PTE_ADDR_MASK
}

/// Tests the validity bit.
pub fn is_valid_entry(e: u64) -> (r: bool)
    ensures
        r == entry_valid(e),
{
    e & PTE_V == 1
}

/// Tests whether a valid entry is a leaf.
pub fn is_leaf_entry(e: u64) -> (r: bool)
    ensures
        r == entry_is_leaf(e),
{
    e & PTE_V == 1 && e & (PTE_R | PTE_W | PTE_X) != 0
}

/// Top-level index extraction for the three-level scheme.
pub fn vpn2_of(va: u64) -> (r: u64)
    ensures
        r == vpn2(va),
        r < 512,
{
    proof {
        assert((va >> 30) & 0x1FFu64 < 512) by (bit_vector);
    }
    (va >> 30) & 0x1FF
}

/// Middle index extraction for the three-level scheme.
pub fn vpn1_of(va: u64) -> (r: u64)
    ensures
        r == vpn1(va),
        r < 512,
{
    proof {
        assert((va >> 21) & 0x1FFu64 < 512) by (bit_vector);
    }
    (va >> 21) & 0x1FF
}

/// Bottom index extraction for the three-level scheme.
pub fn vpn0_of(va: u64) -> (r: u64)
    ensures
        r == vpn0(va),
        r < 512,
{
    proof {
        assert((va >> 12) & 0x1FFu64 < 512) by (bit_vector);
    }
    (va >> 12) & 0x1FF
}

/// Top-level index extraction for the two-level scheme.
pub fn vpn_hi_of(va: u64) -> (r: u64)
    ensures
        r == vpn_hi(va),
        r < 1024,
{
    proof {
        assert((va >> 22) & 0x3FFu64 < 1024) by (bit_vector);
    }
    (va >> 22) & 0x3FF
}

/// Bottom index extraction for the two-level scheme.
pub fn vpn_lo_of(va: u64) -> (r: u64)
    ensures
        r == vpn_lo(va),
        r < 1024,
{
    proof {
        assert((va >> 12) & 0x3FFu64 < 1024) by (bit_vector);
    }
    (va >> 12) & 0x3FF
}

/// Index bounds of the three-level scheme.
pub proof fn lemma_vpn_bounds(va: u64)
    ensures
        vpn2(va) < 512,
        vpn1(va) < 512,
        vpn0(va) < 512,
        vpn_hi(va) < 1024,
        vpn_lo(va) < 1024,
{
    assert((va >> 30) & 0x1FFu64 < 512 && (va >> 21) & 0x1FFu64 < 512
        && (va >> 12) & 0x1FFu64 < 512 && (va >> 22) & 0x3FFu64 < 1024
        && (va >> 12) & 0x3FFu64 < 1024) by (bit_vector);
}

/// Two addresses share all three indices of the three-level scheme exactly
/// when they lie in the same 4 KiB page; the page offset is then the
/// distance from the page base.
pub proof fn lemma_vpn_page_range(va: u64, x: u64)
    requires
        va % PAGE_SIZE == 0,
        va < 0x80_0000_0000,
        x < 0x80_0000_0000,
    ensures
        (vpn2(x) == vpn2(va) && vpn1(x) == vpn1(va) && vpn0(x) == vpn0(va))
            <==> (va <= x < va + PAGE_SIZE),
        va <= x < va + PAGE_SIZE ==> x % PAGE_SIZE == x - va,
{
    assert(((
        (x >> 30) & 0x1FFu64 == (va >> 30) & 0x1FFu64
        && (x >> 21) & 0x1FFu64 == (va >> 21) & 0x1FFu64
        && (x >> 12) & 0x1FFu64 == (va >> 12) & 0x1FFu64)
            <==> (va <= x < va + 4096))
        && (va <= x < va + 4096 ==> x % 4096 == x - va)) by (bit_vector)
        requires
            va % 4096u64 == 0,
            va < 0x80_0000_0000u64,
            x < 0x80_0000_0000u64,
    ;
}

/// Two addresses share the top two indices of the three-level scheme exactly
/// when they lie in the same 2 MiB region aligned at `va`.
pub proof fn lemma_vpn_2m_range(va: u64, x: u64)
    requires
        va % L1_PAGE_SIZE == 0,
        va < 0x80_0000_0000,
        x < 0x80_0000_0000,
    ensures
        (vpn2(x) == vpn2(va) && vpn1(x) == vpn1(va)) <==> (va <= x < va + L1_PAGE_SIZE),
        va <= x < va + L1_PAGE_SIZE ==> x % L1_PAGE_SIZE == x - va,
{
    assert(((
        (x >> 30) & 0x1FFu64 == (va >> 30) & 0x1FFu64
        && (x >> 21) & 0x1FFu64 == (va >> 21) & 0x1FFu64)
            <==> (va <= x < va + 0x20_0000))
        && (va <= x < va + 0x20_0000 ==> x % 0x20_0000 == x - va)) by (bit_vector)
        requires
            va % 0x20_0000u64 == 0,
            va < 0x80_0000_0000u64,
            x < 0x80_0000_0000u64,
    ;
}

/// Two addresses share the top index of the three-level scheme exactly when
/// they lie in the same 1 GiB region aligned at `va`.
pub proof fn lemma_vpn_1g_range(va: u64, x: u64)
    requires
        va % L2_PAGE_SIZE == 0,
        va < 0x80_0000_0000,
        x < 0x80_0000_0000,
    ensures
        (vpn2(x) == vpn2(va)) <==> (va <= x < va + L2_PAGE_SIZE),
        va <= x < va + L2_PAGE_SIZE ==> x % L2_PAGE_SIZE == x - va,
{
    assert((((x >> 30) & 0x1FFu64 == (va >> 30) & 0x1FFu64)
            <==> (va <= x < va + 0x4000_0000))
        && (va <= x < va + 0x4000_0000 ==> x % 0x4000_0000 == x - va)) by (bit_vector)
        requires
            va % 0x4000_0000u64 == 0,
            va < 0x80_0000_0000u64,
            x < 0x80_0000_0000u64,
    ;
}

/// Two addresses share both indices of the two-level scheme exactly when they
/// lie in the same 4 KiB page, for 32-bit virtual addresses.
pub proof fn lemma_vpn2lvl_page_range(va: u64, x: u64)
    requires
        va % PAGE_SIZE == 0,
        va < 0x1_0000_0000,
        x < 0x1_0000_0000,
    ensures
        (vpn_hi(x) == vpn_hi(va) && vpn_lo(x) == vpn_lo(va)) <==> (va <= x < va + PAGE_SIZE),
        va <= x < va + PAGE_SIZE ==> x % PAGE_SIZE == x - va,
{
    assert(((
        (x >> 22) & 0x3FFu64 == (va >> 22) & 0x3FFu64
        && (x >> 12) & 0x3FFu64 == (va >> 12) & 0x3FFu64)
            <==> (va <= x < va + 4096))
        && (va <= x < va + 4096 ==> x % 4096 == x - va)) by (bit_vector)
        requires
            va % 4096u64 == 0,
            va < 0x1_0000_0000u64,
            x < 0x1_0000_0000u64,
    ;
}

/// The top-level index grows with the distance from an aligned base.
pub proof fn lemma_vpn2_diff(va: u64, d: u64, x: u64)
    requires
        va % L2_PAGE_SIZE == 0,
        x == va + d,
        x < 0x80_0000_0000,
    ensures
        vpn2(x) == vpn2(va) + d / L2_PAGE_SIZE,
{
    assert((x >> 30) & 0x1FFu64 == ((va >> 30) & 0x1FFu64) + (d / 0x4000_0000u64))
        by (bit_vector)
        requires
            va % 0x4000_0000u64 == 0,
            x == va + d,
            x < 0x80_0000_0000u64,
    ;
}

/// The top-level index is monotone in the address.
pub proof fn lemma_vpn2_mono(x: u64, y: u64)
    requires
        x <= y,
        y < 0x80_0000_0000,
    ensures
        vpn2(x) <= vpn2(y),
{
    assert((x >> 30) & 0x1FFu64 <= (y >> 30) & 0x1FFu64) by (bit_vector)
        requires
            x <= y,
            y < 0x80_0000_0000u64,
    ;
}

/// The sum of two multiples of a modulus is a multiple of it.
pub proof fn lemma_mod_add_zero(a: int, b: int, m: int)
    requires
        m > 0,
        a % m == 0,
        b % m == 0,
    ensures
        (a + b) % m == 0,
{
    vstd::arithmetic::div_mod::lemma_add_mod_noop(a, b, m);
    vstd::arithmetic::div_mod::lemma_small_mod(0, m as nat);
}

/// The difference of two multiples of a modulus is a multiple of it.
pub proof fn lemma_mod_sub_zero(a: int, b: int, m: int)
    requires
        m > 0,
        a % m == 0,
        b % m == 0,
    ensures
        (a - b) % m == 0,
{
    vstd::arithmetic::div_mod::lemma_sub_mod_noop(a, b, m);
    vstd::arithmetic::div_mod::lemma_small_mod(0, m as nat);
}

/// A positive multiple of a modulus is at least the modulus.
pub proof fn lemma_pos_multiple(a: int, m: int)
    by (nonlinear_arith)
    requires
        m > 0,
        a > 0,
        a % m == 0,
    ensures
        a >= m,
{
}

/// The address bits of an entry never exceed the address mask.
pub proof fn lemma_entry_addr_bound(e: u64)
    ensures
        entry_addr(e) <= PTE_ADDR_MASK,
{
    assert(e & 0xFFFF_FFFF_F000u64 <= 0xFFFF_FFFF_F000u64) by (bit_vector);
}

/// An address sits between its top-level slot's base and the next one; an
/// aligned address is its slot's base exactly.
pub proof fn lemma_vpn2_floor(va: u64)
    requires
        va < 0x80_0000_0000,
    ensures
        vpn2(va) * L2_PAGE_SIZE <= va,
        va - vpn2(va) * L2_PAGE_SIZE < L2_PAGE_SIZE,
        va % L2_PAGE_SIZE == 0 ==> vpn2(va) * L2_PAGE_SIZE == va,
{
    lemma_vpn_bounds(va);
    assert(vpn2(va) * L2_PAGE_SIZE < 0x80_0000_0000);
    assert(((((va >> 30) & 0x1FFu64) * 0x4000_0000u64) as u64) <= va
        && (va - ((((va >> 30) & 0x1FFu64) * 0x4000_0000u64) as u64)) < 0x4000_0000u64
        && (va % 0x4000_0000u64 == 0
            ==> ((((va >> 30) & 0x1FFu64) * 0x4000_0000u64) as u64) == va)) by (bit_vector)
        requires
            va < 0x80_0000_0000u64,
    ;
}

} // verus!
