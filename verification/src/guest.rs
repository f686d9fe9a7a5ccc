//! Three-level page-table builder with 4 KiB, 2 MiB and 1 GiB leaves.
//!
//! Tables live in an arena: table `j` occupies the page at `base + j * 4096`,
//! and index 0 is the root. A valid entry is a leaf exactly when it carries a
//! read, write or execute permission; otherwise it links to a next-level
//! table. Mapping is greedy, largest granularity first.

use vstd::prelude::*;
use crate::pte::{
    PAGE_SIZE, L1_PAGE_SIZE, L2_PAGE_SIZE, PTE_R, PTE_W, PHYS_ADDR_LIMIT, entry_valid,
    entry_is_leaf, entry_is_link, entry_addr, entry_perm, leaf_flags_ok, vpn2, vpn1, vpn0,
    make_leaf_entry, make_link_entry, lemma_zero_entry_invalid, entry_addr_of, is_valid_entry,
    is_leaf_entry, vpn2_of, vpn1_of, vpn0_of, lemma_vpn_bounds, lemma_vpn_page_range,
    lemma_vpn_2m_range, lemma_vpn_1g_range, lemma_vpn2_diff, lemma_vpn2_mono,
    lemma_mod_add_zero, lemma_mod_sub_zero, lemma_pos_multiple, lemma_entry_addr_bound,
    lemma_vpn2_floor,
};

verus! {

/// Number of entries in one table of the three-level scheme.
pub const ENTRY_COUNT: usize = 512;

/// Model address of the page holding the root table; further tables follow it.
pub const TABLE_REGION_BASE: u64 = 0x10_0000;

/// Exclusive upper bound of the virtual addresses the three-level scheme
/// translates: three 9-bit indices over a 12-bit page offset.
pub const VA_LIMIT_3LVL: u64 = 0x80_0000_0000;

/// A hierarchical page table under construction: the arena of its tables.
pub struct GuestPageTable {
    /// Physical address of the root table; table `j` sits at `base + j * 4096`.
    pub base: u64,
    /// The tables in allocation order; index 0 is the root.
    pub tables: Vec<Vec<u64>>,
    /// Level of each table: 2 for the root, 1 and 0 beneath it.
    pub levels: Ghost<Seq<int>>,
}

impl GuestPageTable {
    /// Physical address of table `j`.
    pub open spec fn table_addr(self, j: int) -> int {
        self.base + j * 4096
    }

    /// Contents of table `i`.
    pub open spec fn tbl(self, i: int) -> Seq<u64> {
        self.tables@[i]@
    }

    /// Index of the table a link entry points to.
    pub open spec fn link_target(self, e: u64) -> int {
        (entry_addr(e) - self.base) / 4096
    }

    /// A link entry must point, page-aligned, at another table of the arena,
    /// one level below its own table.
    pub open spec fn entry_ok(self, i: int, e: u64) -> bool {
        entry_is_link(e) ==> {
            &&& self.base + 4096 <= entry_addr(e)
            &&& entry_addr(e) < self.base + self.tables@.len() * 4096
            &&& (entry_addr(e) - self.base) % 4096 == 0
            &&& self.levels@[self.link_target(e)] == self.levels@[i] - 1
        }
    }

    /// Every entry of table `i` is well formed.
    pub open spec fn table_ok(self, i: int) -> bool {
        &&& self.tbl(i).len() == ENTRY_COUNT
        &&& forall|k: int| 0 <= k < ENTRY_COUNT ==> self.entry_ok(i, #[trigger] self.tbl(i)[k])
    }

    /// No two link entries point at the same table.
    pub open spec fn links_injective(self) -> bool {
        forall|i1: int, k1: int, i2: int, k2: int|
            (0 <= i1 < self.tables@.len() && 0 <= k1 < ENTRY_COUNT
                && 0 <= i2 < self.tables@.len() && 0 <= k2 < ENTRY_COUNT
                && entry_is_link(#[trigger] self.tbl(i1)[k1])
                && entry_is_link(#[trigger] self.tbl(i2)[k2])
                && entry_addr(self.tbl(i1)[k1]) == entry_addr(self.tbl(i2)[k2]))
                ==> (i1 == i2 && k1 == k2)
    }

    /// Well-formedness of the whole arena.
    pub open spec fn wf(self) -> bool {
        &&& self.base % 4096 == 0
        &&& self.base >= 4096
        &&& self.base + self.tables@.len() * 4096 <= PHYS_ADDR_LIMIT
        &&& 1 <= self.tables@.len()
        &&& self.levels@.len() == self.tables@.len()
        &&& self.levels@[0] == 2
        &&& forall|i: int| 0 <= i < self.tables@.len() ==> 0 <= #[trigger] self.levels@[i] <= 2
        &&& forall|i: int| 0 <= i < self.tables@.len() ==> self.table_ok(i)
        &&& self.links_injective()
    }

    /// Walks the table for an arbitrary virtual address: the physical address
    /// and the permission bits its mapping resolves to, if any.
    pub open spec fn translate(self, x: u64) -> Option<(u64, u64)>
        recommends
            self.wf(),
    {
        let e2 = self.tbl(0)[vpn2(x) as int];
        if entry_is_leaf(e2) {
            Some((((entry_addr(e2) + x % L2_PAGE_SIZE) as u64), entry_perm(e2)))
        } else if entry_is_link(e2) {
            let e1 = self.tbl(self.link_target(e2))[vpn1(x) as int];
            if entry_is_leaf(e1) {
                Some((((entry_addr(e1) + x % L1_PAGE_SIZE) as u64), entry_perm(e1)))
            } else if entry_is_link(e1) {
                let e0 = self.tbl(self.link_target(e1))[vpn0(x) as int];
                if entry_is_leaf(e0) {
                    Some((((entry_addr(e0) + x % PAGE_SIZE) as u64), entry_perm(e0)))
                } else {
                    None
                }
            } else {
                None
            }
        } else {
            None
        }
    }

    /// The entry the middle level holds on this address's path, when the
    /// top-level slot already links to a middle table.
    pub open spec fn mid_entry(self, va: u64) -> Option<u64> {
        let e2 = self.tbl(0)[vpn2(va) as int];
        if entry_is_link(e2) {
            Some(self.tbl(self.link_target(e2))[vpn1(va) as int])
        } else {
            None
        }
    }

    /// A 1 GiB or 2 MiB leaf covers this address.
    pub open spec fn huge_leaf_at(self, x: u64) -> bool {
        let e2 = self.tbl(0)[vpn2(x) as int];
        ||| entry_is_leaf(e2)
        ||| (entry_is_link(e2) && entry_is_leaf(
            self.tbl(self.link_target(e2))[vpn1(x) as int]))
    }

    /// No 1 GiB or 2 MiB leaf already covers any address of the region, so
    /// mapping can descend to its chosen granularity everywhere in it.
    pub open spec fn region_clear(self, va: u64, size: u64) -> bool {
        forall|x: u64| va <= x < va + size ==> !(#[trigger] self.huge_leaf_at(x))
    }
}

/// The page-aligned table address of a link target is recovered exactly.
proof fn lemma_target_addr(t: GuestPageTable, e: u64)
    requires
        t.base + 4096 <= entry_addr(e),
        (entry_addr(e) - t.base) % 4096 == 0,
    ensures
        t.table_addr(t.link_target(e)) == entry_addr(e),
        t.link_target(e) >= 1,
{
    let d = entry_addr(e) - t.base;
    vstd::arithmetic::div_mod::lemma_fundamental_div_mod(d as int, 4096);
}

/// Within one arena — one boot session of the builder — two tables never
/// share a physical address: table allocation is a bump over the base, and
/// nothing is ever reclaimed.
pub proof fn lemma_table_addrs_unique(t: GuestPageTable, i: int, j: int)
    requires
        0 <= i < t.tables@.len(),
        0 <= j < t.tables@.len(),
        i != j,
    ensures
        t.table_addr(i) != t.table_addr(j),
{
}

/// Creates a fresh top-level page table whose entries are all invalid:
/// nothing translates yet.
pub fn allocate_page_table() -> (t: GuestPageTable)
    ensures
        t.wf(),
        t.base == TABLE_REGION_BASE,
        t.tables@.len() == 1,
        forall|k: int| 0 <= k < ENTRY_COUNT ==> t.tbl(0)[k] == 0,
        forall|x: u64| #[trigger] t.translate(x) is None,
{
    let entries: Vec<u64> = vec![0u64; ENTRY_COUNT];
    let mut tables: Vec<Vec<u64>> = Vec::new();
    tables.push(entries);
    let ghost lv: Seq<int> = seq![2int];
    let t = GuestPageTable { base: TABLE_REGION_BASE, tables, levels: Ghost(lv) };
    proof {
        lemma_zero_entry_invalid();
        assert forall|i: int| 0 <= i < t.tables@.len() implies t.table_ok(i) by {
            assert(forall|k: int| 0 <= k < ENTRY_COUNT ==> t.tbl(i)[k] == 0);
        };
        assert forall|x: u64| #[trigger] t.translate(x) is None by {
            lemma_vpn_bounds(x);
        };
    }
    t
}

/// A valid entry is only ever replaced by a leaf: links are reused, never
/// dropped or redirected, so mapping allocates a next-level table only for
/// a slot that was invalid before.
pub open spec fn entries_monotone(pre: GuestPageTable, post: GuestPageTable) -> bool {
    forall|i: int, k: int|
        0 <= i < pre.tables@.len() && 0 <= k < ENTRY_COUNT
            && entry_valid(#[trigger] pre.tbl(i)[k])
            ==> (post.tbl(i)[k] == pre.tbl(i)[k] || entry_is_leaf(post.tbl(i)[k]))
}

/// Entry monotonicity holds of an unchanged table.
proof fn lemma_entries_monotone_refl(a: GuestPageTable)
    ensures
        entries_monotone(a, a),
{
    assert forall|i: int, k: int|
        0 <= i < a.tables@.len() && 0 <= k < ENTRY_COUNT
            && entry_valid(#[trigger] a.tbl(i)[k])
        implies (a.tbl(i)[k] == a.tbl(i)[k] || entry_is_leaf(a.tbl(i)[k])) by {};
}

/// Entry monotonicity composes across mapping steps.
proof fn lemma_entries_monotone_trans(a: GuestPageTable, b: GuestPageTable, c: GuestPageTable)
    requires
        entries_monotone(a, b),
        entries_monotone(b, c),
        a.tables@.len() <= b.tables@.len(),
    ensures
        entries_monotone(a, c),
{
    assert forall|i: int, k: int|
        0 <= i < a.tables@.len() && 0 <= k < ENTRY_COUNT
            && entry_valid(#[trigger] a.tbl(i)[k])
        implies (c.tbl(i)[k] == a.tbl(i)[k] || entry_is_leaf(c.tbl(i)[k])) by {
        assert(b.tbl(i)[k] == a.tbl(i)[k] || entry_is_leaf(b.tbl(i)[k]));
        assert(entry_valid(b.tbl(i)[k]));
    };
}

/// Installs one 1 GiB leaf at the top-level slot the virtual address selects:
/// every address sharing that slot then translates to `paddr` plus its offset
/// within the 1 GiB region, and no other translation changes.
pub fn map_1gib_region(root_table: &mut GuestPageTable, vaddr: u64, paddr: u64, flags: u64)
    requires
        old(root_table).wf(),
        vaddr < VA_LIMIT_3LVL,
        paddr % L2_PAGE_SIZE == 0,
        paddr < PHYS_ADDR_LIMIT,
        leaf_flags_ok(flags),
    ensures
        final(root_table).wf(),
        final(root_table).base == old(root_table).base,
        final(root_table).levels@ == old(root_table).levels@,
        final(root_table).tables@.len() == old(root_table).tables@.len(),
        forall|i: int| 1 <= i < old(root_table).tables@.len()
            ==> final(root_table).tbl(i) == old(root_table).tbl(i),
        ({
            let e = final(root_table).tbl(0)[vpn2(vaddr) as int];
            entry_is_leaf(e) && entry_addr(e) == paddr && entry_perm(e) == flags
                && final(root_table).tbl(0)
                    == old(root_table).tbl(0).update(vpn2(vaddr) as int, e)
        }),
        forall|x: u64| vpn2(x) == vpn2(vaddr) ==> #[trigger] final(root_table).translate(x)
            == Some((((paddr + x % L2_PAGE_SIZE) as u64), flags)),
        forall|x: u64| vpn2(x) != vpn2(vaddr) ==> #[trigger] final(root_table).translate(x)
            == old(root_table).translate(x),
        forall|x: u64| vpn2(x) != vpn2(vaddr) ==> #[trigger] final(root_table).huge_leaf_at(x)
            == old(root_table).huge_leaf_at(x),
        entries_monotone(*old(root_table), *final(root_table)),
{
    let idx = vpn2_of(vaddr) as usize;
    let e = make_leaf_entry(paddr, flags);
    let ghost pre = *root_table;
    proof {
        assert(pre.table_ok(0));
    }
    root_table.tables[0][idx] = e;
    proof {
        let t = *root_table;
        assert(t.tables@.len() == pre.tables@.len());
        assert(t.tbl(0) == pre.tbl(0).update(idx as int, e));
        assert(forall|i: int| 1 <= i < t.tables@.len() ==> #[trigger] t.tbl(i) == pre.tbl(i));
        assert(forall|k: int| 0 <= k < ENTRY_COUNT && k != idx
            ==> #[trigger] t.tbl(0)[k] == pre.tbl(0)[k]);
        assert(t.tbl(0)[idx as int] == e);
        assert forall|i: int| 0 <= i < t.tables@.len() implies t.table_ok(i) by {
            assert(pre.table_ok(i));
            if i == 0 {
                assert forall|k: int| 0 <= k < ENTRY_COUNT
                    implies t.entry_ok(0, #[trigger] t.tbl(0)[k]) by {
                    if k != idx {
                        assert(t.tbl(0)[k] == pre.tbl(0)[k]);
                        assert(pre.entry_ok(0, pre.tbl(0)[k]));
                    }
                };
            }
        };
        assert(t.links_injective()) by {
            assert forall|i1: int, k1: int, i2: int, k2: int|
                (0 <= i1 < t.tables@.len() && 0 <= k1 < ENTRY_COUNT
                    && 0 <= i2 < t.tables@.len() && 0 <= k2 < ENTRY_COUNT
                    && entry_is_link(#[trigger] t.tbl(i1)[k1])
                    && entry_is_link(#[trigger] t.tbl(i2)[k2])
                    && entry_addr(t.tbl(i1)[k1]) == entry_addr(t.tbl(i2)[k2]))
                implies (i1 == i2 && k1 == k2) by {
                assert(!(i1 == 0 && k1 == idx) && !(i2 == 0 && k2 == idx));
                assert(t.tbl(i1)[k1] == pre.tbl(i1)[k1]);
                assert(t.tbl(i2)[k2] == pre.tbl(i2)[k2]);
                assert(pre.links_injective());
            };
        };
        assert forall|x: u64| vpn2(x) == vpn2(vaddr) implies #[trigger] t.translate(x)
            == Some((((paddr + x % L2_PAGE_SIZE) as u64), flags)) by {
            lemma_vpn_bounds(x);
        };
        assert(entries_monotone(pre, t)) by {
            assert forall|i: int, k: int|
                0 <= i < pre.tables@.len() && 0 <= k < ENTRY_COUNT
                    && entry_valid(#[trigger] pre.tbl(i)[k])
                implies (t.tbl(i)[k] == pre.tbl(i)[k] || entry_is_leaf(t.tbl(i)[k])) by {
                if i == 0 && k == idx as int {
                } else if i == 0 {
                    assert(t.tbl(0)[k] == pre.tbl(0)[k]);
                } else {
                    assert(t.tbl(i) == pre.tbl(i));
                }
            };
        };
        assert forall|x: u64| vpn2(x) != vpn2(vaddr) implies #[trigger] t.huge_leaf_at(x)
            == pre.huge_leaf_at(x) by {
            lemma_vpn_bounds(x);
            assert(t.tbl(0)[vpn2(x) as int] == pre.tbl(0)[vpn2(x) as int]);
            let e2 = pre.tbl(0)[vpn2(x) as int];
            if entry_is_link(e2) {
                assert(pre.entry_ok(0, e2));
                lemma_target_addr(pre, e2);
                let t1 = pre.link_target(e2);
                assert(0 <= t1 < pre.tables@.len()) by {
                    assert(pre.table_addr(t1) == entry_addr(e2));
                };
                assert(t1 != 0);
                assert(t.tbl(t1) == pre.tbl(t1));
            }
        };
        assert forall|x: u64| vpn2(x) != vpn2(vaddr) implies #[trigger] t.translate(x)
            == pre.translate(x) by {
            lemma_vpn_bounds(x);
            assert(t.tbl(0)[vpn2(x) as int] == pre.tbl(0)[vpn2(x) as int]);
            let e2 = pre.tbl(0)[vpn2(x) as int];
            if entry_is_link(e2) {
                assert(pre.entry_ok(0, e2));
                lemma_target_addr(pre, e2);
                let t1 = pre.link_target(e2);
                assert(0 <= t1 < pre.tables@.len()) by {
                    assert(pre.table_addr(t1) == entry_addr(e2));
                };
                assert(t1 != 0);
                assert(t.tbl(t1) == pre.tbl(t1));
                assert(pre.table_ok(t1));
                let e1 = pre.tbl(t1)[vpn1(x) as int];
                if entry_is_link(e1) {
                    assert(pre.entry_ok(t1, e1));
                    lemma_target_addr(pre, e1);
                    let t0 = pre.link_target(e1);
                    assert(0 <= t0 < pre.tables@.len()) by {
                        assert(pre.table_addr(t0) == entry_addr(e1));
                    };
                    assert(t0 != 0);
                    assert(t.tbl(t0) == pre.tbl(t0));
                }
            }
        };
    }
}

/// Installing a link from a previously invalid slot to a fresh, empty table
/// changes no translation.
proof fn lemma_translate_link_install(
    pre: GuestPageTable,
    post: GuestPageTable,
    pi: int,
    slot: int,
    x: u64,
)
    requires
        pre.wf(),
        post.base == pre.base,
        post.levels@.len() == post.tables@.len(),
        post.tables@.len() == pre.tables@.len() + 1,
        forall|i: int| 0 <= i < pre.tables@.len() && i != pi ==> post.tbl(i) == pre.tbl(i),
        post.tbl(pi) == pre.tbl(pi).update(slot, post.tbl(pi)[slot]),
        0 <= pi < pre.tables@.len(),
        0 <= slot < ENTRY_COUNT,
        pre.levels@[pi] >= 1,
        !entry_valid(pre.tbl(pi)[slot]),
        entry_is_link(post.tbl(pi)[slot]),
        post.link_target(post.tbl(pi)[slot]) == pre.tables@.len(),
        forall|k: int| 0 <= k < ENTRY_COUNT
            ==> #[trigger] post.tbl(pre.tables@.len() as int)[k] == 0,
    ensures
        post.translate(x) == pre.translate(x),
        post.huge_leaf_at(x) == pre.huge_leaf_at(x),
{
    lemma_vpn_bounds(x);
    lemma_zero_entry_invalid();
    let fresh = pre.tables@.len() as int;
    assert(pre.table_ok(0));
    let e2 = pre.tbl(0)[vpn2(x) as int];
    if pi == 0 && slot == vpn2(x) as int {
        // the top slot was invalid before: nothing translated, and the fresh
        // table is empty, so nothing translates now either
        assert(post.tbl(fresh)[vpn1(x) as int] == 0);
    } else {
        assert(post.tbl(0)[vpn2(x) as int] == e2);
        if entry_is_link(e2) {
            assert(pre.entry_ok(0, e2));
            lemma_target_addr(pre, e2);
            let t1 = pre.link_target(e2);
            assert(0 <= t1 < pre.tables@.len()) by {
                assert(pre.table_addr(t1) == entry_addr(e2));
            };
            assert(post.link_target(e2) == t1);
            assert(pre.table_ok(t1));
            let e1 = pre.tbl(t1)[vpn1(x) as int];
            if t1 == pi && slot == vpn1(x) as int {
                // this middle slot was invalid: the walk ended here before,
                // and now ends at the fresh empty table
                assert(post.tbl(pi)[vpn1(x) as int] == post.tbl(pi)[slot]);
                assert(post.tbl(fresh)[vpn0(x) as int] == 0);
            } else {
                assert(post.tbl(t1)[vpn1(x) as int] == e1);
                if entry_is_link(e1) {
                    assert(pre.entry_ok(t1, e1));
                    lemma_target_addr(pre, e1);
                    let t0 = pre.link_target(e1);
                    assert(0 <= t0 < pre.tables@.len()) by {
                        assert(pre.table_addr(t0) == entry_addr(e1));
                    };
                    assert(post.link_target(e1) == t0);
                    // a level-0 table is never the slot's own table
                    assert(pre.levels@[t0] == pre.levels@[t1] - 1);
                    assert(pre.levels@[0] == 2);
                    assert(t0 != pi);
                    assert(post.tbl(t0) == pre.tbl(t0));
                }
            }
        }
    }
}

/// Makes sure the top-level slot holds a link to a level-1 table, allocating
/// a fresh empty one when the slot is invalid; translation is unchanged.
fn ensure_l1(t: &mut GuestPageTable, idx: usize) -> (j: usize)
    requires
        old(t).wf(),
        idx < ENTRY_COUNT,
        !entry_is_leaf(old(t).tbl(0)[idx as int]),
        old(t).base + (old(t).tables@.len() + 1) * 4096 <= PHYS_ADDR_LIMIT,
    ensures
        final(t).wf(),
        final(t).base == old(t).base,
        old(t).tables@.len() <= final(t).tables@.len() <= old(t).tables@.len() + 1,
        final(t).tables@.len()
            == old(t).tables@.len() + (if entry_valid(old(t).tbl(0)[idx as int]) { 0int } else { 1 }),
        1 <= j < final(t).tables@.len(),
        final(t).levels@[j as int] == 1,
        entry_is_link(final(t).tbl(0)[idx as int]),
        final(t).link_target(final(t).tbl(0)[idx as int]) == j,
        final(t).tbl(0) == old(t).tbl(0).update(idx as int, final(t).tbl(0)[idx as int]),
        forall|i: int| 1 <= i < old(t).tables@.len() ==> final(t).tbl(i) == old(t).tbl(i),
        forall|i: int| 0 <= i < old(t).tables@.len()
            ==> final(t).levels@[i] == old(t).levels@[i],
        final(t).tables@.len() > old(t).tables@.len() ==> (j == old(t).tables@.len()
            && forall|k: int| 0 <= k < ENTRY_COUNT ==> final(t).tbl(j as int)[k] == 0),
        final(t).tables@.len() == old(t).tables@.len() ==> final(t).tbl(0) == old(t).tbl(0),
        forall|x: u64| #[trigger] final(t).translate(x) == old(t).translate(x),
        forall|x: u64| #[trigger] final(t).huge_leaf_at(x) == old(t).huge_leaf_at(x),
{
    proof {
        assert(old(t).table_ok(0));
    }
    let e = t.tables[0][idx];
    if is_valid_entry(e) {
        let ghost pre = *t;
        proof {
            assert(pre.entry_ok(0, e));
            lemma_target_addr(pre, e);
            assert(0 <= pre.link_target(e) < pre.tables@.len()) by {
                assert(pre.table_addr(pre.link_target(e)) == entry_addr(e));
            };
            assert(pre.levels@[pre.link_target(e)] == 1);
        }
        let addr = entry_addr_of(e);
        let n = t.tables.len();
        let jq = (addr - t.base) / 4096;
        proof {
            assert(n == pre.tables@.len());
            assert(jq == pre.link_target(e));
            assert(jq < pre.tables@.len());
            assert(pre.tbl(0) == pre.tbl(0).update(idx as int, pre.tbl(0)[idx as int]));
        }
        let j = jq as usize;
        proof {
            assert(j as int == pre.link_target(e));
            assert(1 <= j as int && (j as int) < t.tables@.len());
            assert(t.levels@[j as int] == 1);
        }
        j
    } else {
        let j = t.tables.len();
        let entries: Vec<u64> = vec![0u64; ENTRY_COUNT];
        let ghost pre = *t;
        t.tables.push(entries);
        let ghost lv = t.levels@.push(1int);
        proof {
            t.levels = Ghost(lv);
        }
        let table_pa = t.base + (j as u64) * 4096;
        let le = make_link_entry(table_pa);
        t.tables[0][idx] = le;
        proof {
            let post = *t;
            lemma_zero_entry_invalid();
            assert(post.tables@.len() == pre.tables@.len() + 1);
            assert(post.tbl(0) == pre.tbl(0).update(idx as int, le));
            assert(forall|i: int| 1 <= i < pre.tables@.len()
                ==> #[trigger] post.tbl(i) == pre.tbl(i));
            assert(forall|k: int| 0 <= k < ENTRY_COUNT
                ==> #[trigger] post.tbl(j as int)[k] == 0);
            assert(post.link_target(le) == j) by {
                lemma_target_addr(post, le);
                assert(post.table_addr(post.link_target(le)) == entry_addr(le));
            };
            // well-formedness
            assert forall|i: int| 0 <= i < post.tables@.len() implies post.table_ok(i) by {
                if i == j as int {
                    assert(forall|k: int| 0 <= k < ENTRY_COUNT
                        ==> #[trigger] post.tbl(i)[k] == 0);
                } else {
                    assert(pre.table_ok(i));
                    assert forall|k: int| 0 <= k < ENTRY_COUNT
                        implies post.entry_ok(i, #[trigger] post.tbl(i)[k]) by {
                        if i == 0 && k == idx as int {
                            assert(post.entry_ok(0, le));
                        } else {
                            assert(post.tbl(i)[k] == pre.tbl(i)[k]);
                            assert(pre.entry_ok(i, pre.tbl(i)[k]));
                        }
                    };
                }
            };
            assert(post.links_injective()) by {
                assert forall|i1: int, k1: int, i2: int, k2: int|
                    (0 <= i1 < post.tables@.len() && 0 <= k1 < ENTRY_COUNT
                        && 0 <= i2 < post.tables@.len() && 0 <= k2 < ENTRY_COUNT
                        && entry_is_link(#[trigger] post.tbl(i1)[k1])
                        && entry_is_link(#[trigger] post.tbl(i2)[k2])
                        && entry_addr(post.tbl(i1)[k1]) == entry_addr(post.tbl(i2)[k2]))
                    implies (i1 == i2 && k1 == k2) by {
                    if i1 == j as int || i2 == j as int {
                        // fresh table holds no links
                    } else {
                        if (i1 == 0 && k1 == idx as int) && (i2 == 0 && k2 == idx as int) {
                        } else if (i1 == 0 && k1 == idx as int) || (i2 == 0 && k2 == idx as int) {
                            // the new link is the only one whose address reaches the
                            // fresh table, beyond every older table
                            let (io, ko) = if i1 == 0 && k1 == idx as int { (i2, k2) } else {
                                (i1, k1)
                            };
                            assert(post.tbl(io)[ko] == pre.tbl(io)[ko]);
                            assert(pre.table_ok(io));
                            assert(pre.entry_ok(io, pre.tbl(io)[ko]));
                            assert(entry_addr(pre.tbl(io)[ko]) < pre.base + pre.tables@.len() * 4096);
                            assert(entry_addr(le) == pre.base + pre.tables@.len() * 4096);
                            assert(false);
                        } else {
                            assert(post.tbl(i1)[k1] == pre.tbl(i1)[k1]);
                            assert(post.tbl(i2)[k2] == pre.tbl(i2)[k2]);
                            assert(pre.links_injective());
                        }
                    }
                };
            };
            assert(post.wf());
            assert forall|x: u64| #[trigger] post.translate(x) == pre.translate(x) by {
                lemma_translate_link_install(pre, post, 0, idx as int, x);
            };
            assert forall|x: u64| #[trigger] post.huge_leaf_at(x) == pre.huge_leaf_at(x) by {
                lemma_translate_link_install(pre, post, 0, idx as int, x);
            };
        }
        j
    }
}

/// Installs one 2 MiB leaf: every address sharing both upper indices with
/// `vaddr` then translates to `paddr` plus its offset within the 2 MiB
/// region, and no other translation changes. A huge leaf becomes visible at
/// an address only where one already was.
pub fn map_2mib_region(root_table: &mut GuestPageTable, vaddr: u64, paddr: u64, flags: u64)
    requires
        old(root_table).wf(),
        vaddr < VA_LIMIT_3LVL,
        paddr % L1_PAGE_SIZE == 0,
        paddr < PHYS_ADDR_LIMIT,
        leaf_flags_ok(flags),
        !entry_is_leaf(old(root_table).tbl(0)[vpn2(vaddr) as int]),
        old(root_table).base + (old(root_table).tables@.len() + 1) * 4096 <= PHYS_ADDR_LIMIT,
    ensures
        final(root_table).wf(),
        final(root_table).base == old(root_table).base,
        final(root_table).tables@.len() == old(root_table).tables@.len()
            + (if entry_valid(old(root_table).tbl(0)[vpn2(vaddr) as int]) {
                0int
            } else {
                1int
            }),
        forall|x: u64| vpn2(x) == vpn2(vaddr) && vpn1(x) == vpn1(vaddr)
            ==> #[trigger] final(root_table).translate(x)
                == Some((((paddr + x % L1_PAGE_SIZE) as u64), flags)),
        forall|x: u64| !(vpn2(x) == vpn2(vaddr) && vpn1(x) == vpn1(vaddr))
            ==> #[trigger] final(root_table).translate(x) == old(root_table).translate(x),
        forall|x: u64| !(vpn2(x) == vpn2(vaddr) && vpn1(x) == vpn1(vaddr))
            ==> (#[trigger] final(root_table).huge_leaf_at(x)
                == old(root_table).huge_leaf_at(x)),
        forall|k: int| 0 <= k < ENTRY_COUNT && k != vpn2(vaddr)
            ==> #[trigger] final(root_table).tbl(0)[k] == old(root_table).tbl(0)[k],
        entries_monotone(*old(root_table), *final(root_table)),
{
    let idx2 = vpn2_of(vaddr) as usize;
    let idx1 = vpn1_of(vaddr) as usize;
    let j = ensure_l1(root_table, idx2);
    let ghost mid = *root_table;
    let e = make_leaf_entry(paddr, flags);
    proof {
        assert(mid.table_ok(j as int));
    }
    root_table.tables[j][idx1] = e;
    proof {
        let post = *root_table;
        assert(post.tables@.len() == mid.tables@.len());
        assert(post.tbl(j as int) == mid.tbl(j as int).update(idx1 as int, e));
        assert(forall|i: int| 0 <= i < post.tables@.len() && i != j as int
            ==> #[trigger] post.tbl(i) == mid.tbl(i));
        let le = mid.tbl(0)[idx2 as int];
        assert(entry_is_link(le) && mid.link_target(le) == j);
        // well-formedness: the new entry is a leaf, all else is unchanged
        assert forall|i: int| 0 <= i < post.tables@.len() implies post.table_ok(i) by {
            assert(mid.table_ok(i));
            assert forall|k: int| 0 <= k < ENTRY_COUNT
                implies post.entry_ok(i, #[trigger] post.tbl(i)[k]) by {
                if i == j as int && k == idx1 as int {
                } else {
                    assert(post.tbl(i)[k] == mid.tbl(i)[k]);
                    assert(mid.entry_ok(i, mid.tbl(i)[k]));
                }
            };
        };
        assert(post.links_injective()) by {
            assert forall|i1: int, k1: int, i2: int, k2: int|
                (0 <= i1 < post.tables@.len() && 0 <= k1 < ENTRY_COUNT
                    && 0 <= i2 < post.tables@.len() && 0 <= k2 < ENTRY_COUNT
                    && entry_is_link(#[trigger] post.tbl(i1)[k1])
                    && entry_is_link(#[trigger] post.tbl(i2)[k2])
                    && entry_addr(post.tbl(i1)[k1]) == entry_addr(post.tbl(i2)[k2]))
                implies (i1 == i2 && k1 == k2) by {
                assert(!(i1 == j as int && k1 == idx1 as int));
                assert(!(i2 == j as int && k2 == idx1 as int));
                assert(post.tbl(i1)[k1] == mid.tbl(i1)[k1]);
                assert(post.tbl(i2)[k2] == mid.tbl(i2)[k2]);
                assert(mid.links_injective());
            };
        };
        assert(post.wf());
        // translation at matching addresses
        assert forall|x: u64| vpn2(x) == vpn2(vaddr) && vpn1(x) == vpn1(vaddr)
            implies #[trigger] post.translate(x)
                == Some((((paddr + x % L1_PAGE_SIZE) as u64), flags)) by {
            lemma_vpn_bounds(x);
            assert(post.tbl(0)[vpn2(x) as int] == le);
            assert(post.link_target(le) == j);
            assert(post.tbl(j as int)[vpn1(x) as int] == e);
        };
        // translation elsewhere
        assert forall|x: u64| !(vpn2(x) == vpn2(vaddr) && vpn1(x) == vpn1(vaddr))
            implies #[trigger] post.translate(x) == old(root_table).translate(x) by {
            lemma_l1_leaf_frame(mid, post, j as int, vpn2(vaddr) as int, vpn1(vaddr) as int, x);
            assert(mid.translate(x) == old(root_table).translate(x));
        };
        assert forall|x: u64| !(vpn2(x) == vpn2(vaddr) && vpn1(x) == vpn1(vaddr))
            implies #[trigger] post.huge_leaf_at(x) == old(root_table).huge_leaf_at(x) by {
            lemma_l1_leaf_frame(mid, post, j as int, vpn2(vaddr) as int, vpn1(vaddr) as int, x);
            assert(mid.huge_leaf_at(x) == old(root_table).huge_leaf_at(x));
        };
        // the root table is untouched outside its one slot
        assert(mid.levels@[0] == 2);
        assert(j as int != 0);
        assert(post.tbl(0) == mid.tbl(0));
        assert forall|k: int| 0 <= k < ENTRY_COUNT && k != vpn2(vaddr)
            implies #[trigger] post.tbl(0)[k] == old(root_table).tbl(0)[k] by {
            assert(old(root_table).table_ok(0));
            assert(mid.tbl(0) == old(root_table).tbl(0).update(
                vpn2(vaddr) as int, mid.tbl(0)[vpn2(vaddr) as int]));
            assert(mid.tbl(0)[k] == old(root_table).tbl(0)[k]);
        };
        // valid entries are only replaced by leaves
        let pre0 = *old(root_table);
        assert(entries_monotone(pre0, post)) by {
            assert forall|i: int, k: int|
                0 <= i < pre0.tables@.len() && 0 <= k < ENTRY_COUNT
                    && entry_valid(#[trigger] pre0.tbl(i)[k])
                implies (post.tbl(i)[k] == pre0.tbl(i)[k] || entry_is_leaf(post.tbl(i)[k]))
                by {
                assert(pre0.table_ok(i));
                if i == 0 {
                    if k == idx2 as int {
                        // the slot held a link, which ensure_l1 reused
                        assert(mid.tables@.len() == pre0.tables@.len());
                        assert(mid.tbl(0) == pre0.tbl(0));
                    } else {
                        assert(post.tbl(0)[k] == pre0.tbl(0)[k]);
                    }
                } else if i == j as int && k == idx1 as int {
                    assert(entry_is_leaf(post.tbl(i)[k]));
                } else if i == j as int {
                    assert(post.tbl(j as int)
                        == mid.tbl(j as int).update(idx1 as int, post.tbl(j as int)[idx1 as int]));
                    assert(post.tbl(i)[k] == mid.tbl(i)[k]);
                    assert(mid.tbl(i) == pre0.tbl(i));
                } else {
                    assert(post.tbl(i) == mid.tbl(i));
                    assert(mid.tbl(i) == pre0.tbl(i));
                }
            };
        };
    }
}

/// Writing one slot of a level-1 table leaves every translation alone except
/// those of the addresses whose top two indices select exactly that slot.
proof fn lemma_l1_leaf_frame(
    mid: GuestPageTable,
    post: GuestPageTable,
    j: int,
    idx2: int,
    idx1: int,
    x: u64,
)
    requires
        mid.wf(),
        post.base == mid.base,
        post.levels@ == mid.levels@,
        post.tables@.len() == mid.tables@.len(),
        forall|i: int| 0 <= i < post.tables@.len() && i != j ==> post.tbl(i) == mid.tbl(i),
        post.tbl(j) == mid.tbl(j).update(idx1, post.tbl(j)[idx1]),
        0 <= j < mid.tables@.len(),
        0 <= idx2 < ENTRY_COUNT,
        0 <= idx1 < ENTRY_COUNT,
        mid.levels@[j] == 1,
        entry_is_link(mid.tbl(0)[idx2]),
        mid.link_target(mid.tbl(0)[idx2]) == j,
        !(vpn2(x) == idx2 && vpn1(x) == idx1),
    ensures
        post.translate(x) == mid.translate(x),
        post.huge_leaf_at(x) == mid.huge_leaf_at(x),
{
    lemma_vpn_bounds(x);
    assert(mid.table_ok(0));
    let le = mid.tbl(0)[idx2];
    let e2 = mid.tbl(0)[vpn2(x) as int];
    assert(post.tbl(0)[vpn2(x) as int] == e2);
    if entry_is_link(e2) {
        assert(mid.entry_ok(0, e2));
        lemma_target_addr(mid, e2);
        let t1 = mid.link_target(e2);
        assert(0 <= t1 < mid.tables@.len()) by {
            assert(mid.table_addr(t1) == entry_addr(e2));
        };
        assert(mid.table_ok(t1));
        if t1 == j {
            // the only link to table j is the one at slot idx2 of the root
            assert(mid.links_injective());
            assert(entry_addr(e2) == entry_addr(le));
            assert(vpn2(x) == idx2);
            assert(vpn1(x) != idx1);
            assert(post.tbl(j)[vpn1(x) as int] == mid.tbl(j)[vpn1(x) as int]);
        }
        let e1 = mid.tbl(t1)[vpn1(x) as int];
        assert(post.tbl(t1)[vpn1(x) as int] == e1);
        if entry_is_link(e1) {
            assert(mid.entry_ok(t1, e1));
            lemma_target_addr(mid, e1);
            let t0 = mid.link_target(e1);
            assert(0 <= t0 < mid.tables@.len()) by {
                assert(mid.table_addr(t0) == entry_addr(e1));
            };
            assert(mid.levels@[t0] == mid.levels@[t1] - 1);
            assert(mid.levels@[j] == 1);
            assert(t0 != j);
            assert(post.tbl(t0) == mid.tbl(t0));
        }
    }
}

/// Makes sure slot `idx` of the level-1 table `j1` holds a link to a level-0
/// table, allocating a fresh empty one when the slot is invalid; translation
/// is unchanged.
fn ensure_l0(t: &mut GuestPageTable, j1: usize, idx: usize) -> (j: usize)
    requires
        old(t).wf(),
        j1 < old(t).tables@.len(),
        old(t).levels@[j1 as int] == 1,
        idx < ENTRY_COUNT,
        !entry_is_leaf(old(t).tbl(j1 as int)[idx as int]),
        old(t).base + (old(t).tables@.len() + 1) * 4096 <= PHYS_ADDR_LIMIT,
    ensures
        final(t).wf(),
        final(t).base == old(t).base,
        final(t).tables@.len() == old(t).tables@.len()
            + (if entry_valid(old(t).tbl(j1 as int)[idx as int]) {
                0int
            } else {
                1int
            }),
        1 <= j < final(t).tables@.len(),
        final(t).levels@[j as int] == 0,
        entry_is_link(final(t).tbl(j1 as int)[idx as int]),
        final(t).link_target(final(t).tbl(j1 as int)[idx as int]) == j,
        final(t).tbl(j1 as int)
            == old(t).tbl(j1 as int).update(idx as int, final(t).tbl(j1 as int)[idx as int]),
        forall|i: int| 0 <= i < old(t).tables@.len() && i != j1 as int
            ==> final(t).tbl(i) == old(t).tbl(i),
        forall|i: int| 0 <= i < old(t).tables@.len()
            ==> final(t).levels@[i] == old(t).levels@[i],
        final(t).tables@.len() > old(t).tables@.len() ==> (j == old(t).tables@.len()
            && forall|k: int| 0 <= k < ENTRY_COUNT ==> final(t).tbl(j as int)[k] == 0),
        final(t).tables@.len() == old(t).tables@.len() ==> (final(t).tbl(j1 as int)
            == old(t).tbl(j1 as int) && j == old(t).link_target(
                old(t).tbl(j1 as int)[idx as int])),
        forall|x: u64| #[trigger] final(t).translate(x) == old(t).translate(x),
        forall|x: u64| #[trigger] final(t).huge_leaf_at(x) == old(t).huge_leaf_at(x),
{
    proof {
        assert(old(t).table_ok(j1 as int));
    }
    let e = t.tables[j1][idx];
    if is_valid_entry(e) {
        let ghost pre = *t;
        proof {
            assert(pre.entry_ok(j1 as int, e));
            lemma_target_addr(pre, e);
            assert(0 <= pre.link_target(e) < pre.tables@.len()) by {
                assert(pre.table_addr(pre.link_target(e)) == entry_addr(e));
            };
            assert(pre.levels@[pre.link_target(e)] == 0);
        }
        let addr = entry_addr_of(e);
        let n = t.tables.len();
        let jq = (addr - t.base) / 4096;
        proof {
            assert(n == pre.tables@.len());
            assert(jq == pre.link_target(e));
            assert(jq < pre.tables@.len());
            assert(pre.tbl(j1 as int)
                == pre.tbl(j1 as int).update(idx as int, pre.tbl(j1 as int)[idx as int]));
        }
        let j = jq as usize;
        proof {
            assert(j as int == pre.link_target(e));
            assert(1 <= j as int && (j as int) < t.tables@.len());
            assert(t.levels@[j as int] == 0);
        }
        j
    } else {
        let j = t.tables.len();
        let entries: Vec<u64> = vec![0u64; ENTRY_COUNT];
        let ghost pre = *t;
        t.tables.push(entries);
        let ghost lv = t.levels@.push(0int);
        proof {
            t.levels = Ghost(lv);
        }
        let table_pa = t.base + (j as u64) * 4096;
        let le = make_link_entry(table_pa);
        t.tables[j1][idx] = le;
        proof {
            let post = *t;
            lemma_zero_entry_invalid();
            assert(post.tables@.len() == pre.tables@.len() + 1);
            assert(post.tbl(j1 as int) == pre.tbl(j1 as int).update(idx as int, le));
            assert(forall|i: int| 0 <= i < pre.tables@.len() && i != j1 as int
                ==> #[trigger] post.tbl(i) == pre.tbl(i));
            assert(forall|k: int| 0 <= k < ENTRY_COUNT
                ==> #[trigger] post.tbl(j as int)[k] == 0);
            assert(post.link_target(le) == j) by {
                lemma_target_addr(post, le);
                assert(post.table_addr(post.link_target(le)) == entry_addr(le));
            };
            // well-formedness
            assert forall|i: int| 0 <= i < post.tables@.len() implies post.table_ok(i) by {
                if i == j as int {
                    assert(forall|k: int| 0 <= k < ENTRY_COUNT
                        ==> #[trigger] post.tbl(i)[k] == 0);
                } else {
                    assert(pre.table_ok(i));
                    assert forall|k: int| 0 <= k < ENTRY_COUNT
                        implies post.entry_ok(i, #[trigger] post.tbl(i)[k]) by {
                        if i == j1 as int && k == idx as int {
                            assert(post.entry_ok(i, le));
                        } else {
                            assert(post.tbl(i)[k] == pre.tbl(i)[k]);
                            assert(pre.entry_ok(i, pre.tbl(i)[k]));
                        }
                    };
                }
            };
            assert(post.links_injective()) by {
                assert forall|i1: int, k1: int, i2: int, k2: int|
                    (0 <= i1 < post.tables@.len() && 0 <= k1 < ENTRY_COUNT
                        && 0 <= i2 < post.tables@.len() && 0 <= k2 < ENTRY_COUNT
                        && entry_is_link(#[trigger] post.tbl(i1)[k1])
                        && entry_is_link(#[trigger] post.tbl(i2)[k2])
                        && entry_addr(post.tbl(i1)[k1]) == entry_addr(post.tbl(i2)[k2]))
                    implies (i1 == i2 && k1 == k2) by {
                    if i1 == j as int || i2 == j as int {
                        // fresh table holds no links
                    } else {
                        if (i1 == j1 as int && k1 == idx as int)
                            && (i2 == j1 as int && k2 == idx as int) {
                        } else if (i1 == j1 as int && k1 == idx as int)
                            || (i2 == j1 as int && k2 == idx as int) {
                            // the new link is the only one whose address reaches the
                            // fresh table, beyond every older table
                            let (io, ko) = if i1 == j1 as int && k1 == idx as int {
                                (i2, k2)
                            } else {
                                (i1, k1)
                            };
                            assert(post.tbl(io)[ko] == pre.tbl(io)[ko]);
                            assert(pre.table_ok(io));
                            assert(pre.entry_ok(io, pre.tbl(io)[ko]));
                            assert(entry_addr(pre.tbl(io)[ko])
                                < pre.base + pre.tables@.len() * 4096);
                            assert(entry_addr(le) == pre.base + pre.tables@.len() * 4096);
                            assert(false);
                        } else {
                            assert(post.tbl(i1)[k1] == pre.tbl(i1)[k1]);
                            assert(post.tbl(i2)[k2] == pre.tbl(i2)[k2]);
                            assert(pre.links_injective());
                        }
                    }
                };
            };
            assert(post.wf());
            assert forall|x: u64| #[trigger] post.translate(x) == pre.translate(x) by {
                lemma_translate_link_install(pre, post, j1 as int, idx as int, x);
            };
            assert forall|x: u64| #[trigger] post.huge_leaf_at(x) == pre.huge_leaf_at(x) by {
                lemma_translate_link_install(pre, post, j1 as int, idx as int, x);
            };
        }
        j
    }
}

/// Writing one slot of a level-0 table leaves every translation alone except
/// those of the addresses whose three indices select exactly that slot.
proof fn lemma_l0_leaf_frame(
    mid: GuestPageTable,
    post: GuestPageTable,
    j1: int,
    j0: int,
    idx2: int,
    idx1: int,
    idx0: int,
    x: u64,
)
    requires
        mid.wf(),
        post.base == mid.base,
        post.levels@ == mid.levels@,
        post.tables@.len() == mid.tables@.len(),
        forall|i: int| 0 <= i < post.tables@.len() && i != j0 ==> post.tbl(i) == mid.tbl(i),
        post.tbl(j0) == mid.tbl(j0).update(idx0, post.tbl(j0)[idx0]),
        0 <= j1 < mid.tables@.len(),
        0 <= j0 < mid.tables@.len(),
        0 <= idx2 < ENTRY_COUNT,
        0 <= idx1 < ENTRY_COUNT,
        0 <= idx0 < ENTRY_COUNT,
        mid.levels@[j1] == 1,
        mid.levels@[j0] == 0,
        entry_is_link(mid.tbl(0)[idx2]),
        mid.link_target(mid.tbl(0)[idx2]) == j1,
        entry_is_link(mid.tbl(j1)[idx1]),
        mid.link_target(mid.tbl(j1)[idx1]) == j0,
        !(vpn2(x) == idx2 && vpn1(x) == idx1 && vpn0(x) == idx0),
    ensures
        post.translate(x) == mid.translate(x),
        post.huge_leaf_at(x) == mid.huge_leaf_at(x),
{
    lemma_vpn_bounds(x);
    assert(mid.table_ok(0));
    let e2 = mid.tbl(0)[vpn2(x) as int];
    assert(post.tbl(0)[vpn2(x) as int] == e2);
    if entry_is_link(e2) {
        assert(mid.entry_ok(0, e2));
        lemma_target_addr(mid, e2);
        let t1 = mid.link_target(e2);
        assert(0 <= t1 < mid.tables@.len()) by {
            assert(mid.table_addr(t1) == entry_addr(e2));
        };
        assert(mid.levels@[t1] == 1);
        assert(t1 != j0);
        assert(post.tbl(t1) == mid.tbl(t1));
        assert(mid.table_ok(t1));
        let e1 = mid.tbl(t1)[vpn1(x) as int];
        if entry_is_link(e1) {
            assert(mid.entry_ok(t1, e1));
            lemma_target_addr(mid, e1);
            let t0 = mid.link_target(e1);
            assert(0 <= t0 < mid.tables@.len()) by {
                assert(mid.table_addr(t0) == entry_addr(e1));
            };
            if t0 == j0 {
                // table j0 is linked only from slot idx1 of table j1, and
                // table j1 only from slot idx2 of the root
                assert(mid.links_injective());
                assert(mid.table_ok(j1));
                assert(mid.entry_ok(j1, mid.tbl(j1)[idx1]));
                lemma_target_addr(mid, mid.tbl(j1)[idx1]);
                assert(mid.table_addr(j0) == entry_addr(mid.tbl(j1)[idx1]));
                assert(mid.table_addr(t0) == entry_addr(e1));
                assert(entry_addr(e1) == entry_addr(mid.tbl(j1)[idx1]));
                assert(t1 == j1 && vpn1(x) == idx1);
                lemma_target_addr(mid, mid.tbl(0)[idx2]);
                assert(entry_addr(e2) == entry_addr(mid.tbl(0)[idx2]));
                assert(vpn2(x) == idx2);
                assert(vpn0(x) != idx0);
                assert(mid.table_ok(j0));
                assert(post.tbl(j0)[vpn0(x) as int] == mid.tbl(j0)[vpn0(x) as int]);
            } else {
                assert(post.tbl(t0) == mid.tbl(t0));
            }
        }
    }
}

/// Installs one 4 KiB leaf: every address in the same page as `vaddr` then
/// translates to `paddr` plus its page offset, and no other translation
/// changes. No huge-page leaf appears or disappears anywhere.
pub fn map_4k_region(root_table: &mut GuestPageTable, vaddr: u64, paddr: u64, flags: u64)
    requires
        old(root_table).wf(),
        vaddr < VA_LIMIT_3LVL,
        paddr % PAGE_SIZE == 0,
        paddr < PHYS_ADDR_LIMIT,
        leaf_flags_ok(flags),
        !old(root_table).huge_leaf_at(vaddr),
        old(root_table).base + (old(root_table).tables@.len() + 2) * 4096 <= PHYS_ADDR_LIMIT,
    ensures
        final(root_table).wf(),
        final(root_table).base == old(root_table).base,
        final(root_table).tables@.len() == old(root_table).tables@.len()
            + (if entry_valid(old(root_table).tbl(0)[vpn2(vaddr) as int]) {
                0int
            } else {
                1int
            }) + (match old(root_table).mid_entry(vaddr) {
                Some(e1) => if entry_valid(e1) { 0int } else { 1int },
                None => 1int,
            }),
        (old(root_table).mid_entry(vaddr) is Some
            && entry_valid(old(root_table).mid_entry(vaddr)->Some_0)) ==> ({
            let t0 = old(root_table).link_target(old(root_table).mid_entry(vaddr)->Some_0);
            &&& forall|i: int| 0 <= i < old(root_table).tables@.len() && i != t0
                ==> final(root_table).tbl(i) == old(root_table).tbl(i)
            &&& final(root_table).tbl(t0) == old(root_table).tbl(t0).update(
                vpn0(vaddr) as int, final(root_table).tbl(t0)[vpn0(vaddr) as int])
        }),
        forall|x: u64| vpn2(x) == vpn2(vaddr) && vpn1(x) == vpn1(vaddr) && vpn0(x) == vpn0(vaddr)
            ==> #[trigger] final(root_table).translate(x)
                == Some((((paddr + x % PAGE_SIZE) as u64), flags)),
        forall|x: u64|
            !(vpn2(x) == vpn2(vaddr) && vpn1(x) == vpn1(vaddr) && vpn0(x) == vpn0(vaddr))
            ==> #[trigger] final(root_table).translate(x) == old(root_table).translate(x),
        forall|x: u64| #[trigger] final(root_table).huge_leaf_at(x)
            == old(root_table).huge_leaf_at(x),
        forall|k: int| 0 <= k < ENTRY_COUNT && k != vpn2(vaddr)
            ==> #[trigger] final(root_table).tbl(0)[k] == old(root_table).tbl(0)[k],
        entries_monotone(*old(root_table), *final(root_table)),
{
    let idx2 = vpn2_of(vaddr) as usize;
    let idx1 = vpn1_of(vaddr) as usize;
    let idx0 = vpn0_of(vaddr) as usize;
    proof {
        assert(old(root_table).table_ok(0));
        assert(!entry_is_leaf(old(root_table).tbl(0)[idx2 as int]));
    }
    let j1 = ensure_l1(root_table, idx2);
    let ghost m1 = *root_table;
    proof {
        assert(m1.huge_leaf_at(vaddr) == old(root_table).huge_leaf_at(vaddr));
        assert(!entry_is_leaf(m1.tbl(j1 as int)[idx1 as int])) by {
            assert(entry_is_link(m1.tbl(0)[idx2 as int]));
            assert(m1.link_target(m1.tbl(0)[idx2 as int]) == j1);
        };
    }
    let j0 = ensure_l0(root_table, j1, idx1);
    let ghost mid = *root_table;
    proof {
        assert(mid.table_ok(j0 as int));
        // the links installed above still stand
        assert(entry_is_link(mid.tbl(0)[idx2 as int])
            && mid.link_target(mid.tbl(0)[idx2 as int]) == j1) by {
            assert(m1.levels@[0] == 2);
            assert(j1 as int != 0);
            assert(mid.tbl(0) == m1.tbl(0));
        };
        assert(mid.levels@[j1 as int] == 1);
    }
    let e = make_leaf_entry(paddr, flags);
    root_table.tables[j0][idx0] = e;
    proof {
        let post = *root_table;
        assert(post.tables@.len() == mid.tables@.len());
        assert(post.tbl(j0 as int) == mid.tbl(j0 as int).update(idx0 as int, e));
        assert(forall|i: int| 0 <= i < post.tables@.len() && i != j0 as int
            ==> #[trigger] post.tbl(i) == mid.tbl(i));
        // well-formedness: the new entry is a leaf, all else is unchanged
        assert forall|i: int| 0 <= i < post.tables@.len() implies post.table_ok(i) by {
            assert(mid.table_ok(i));
            assert forall|k: int| 0 <= k < ENTRY_COUNT
                implies post.entry_ok(i, #[trigger] post.tbl(i)[k]) by {
                if i == j0 as int && k == idx0 as int {
                } else {
                    assert(post.tbl(i)[k] == mid.tbl(i)[k]);
                    assert(mid.entry_ok(i, mid.tbl(i)[k]));
                }
            };
        };
        assert(post.links_injective()) by {
            assert forall|i1: int, k1: int, i2: int, k2: int|
                (0 <= i1 < post.tables@.len() && 0 <= k1 < ENTRY_COUNT
                    && 0 <= i2 < post.tables@.len() && 0 <= k2 < ENTRY_COUNT
                    && entry_is_link(#[trigger] post.tbl(i1)[k1])
                    && entry_is_link(#[trigger] post.tbl(i2)[k2])
                    && entry_addr(post.tbl(i1)[k1]) == entry_addr(post.tbl(i2)[k2]))
                implies (i1 == i2 && k1 == k2) by {
                assert(!(i1 == j0 as int && k1 == idx0 as int));
                assert(!(i2 == j0 as int && k2 == idx0 as int));
                assert(post.tbl(i1)[k1] == mid.tbl(i1)[k1]);
                assert(post.tbl(i2)[k2] == mid.tbl(i2)[k2]);
                assert(mid.links_injective());
            };
        };
        assert(post.wf());
        // translation at the mapped page
        assert forall|x: u64|
            vpn2(x) == vpn2(vaddr) && vpn1(x) == vpn1(vaddr) && vpn0(x) == vpn0(vaddr)
            implies #[trigger] post.translate(x)
                == Some((((paddr + x % PAGE_SIZE) as u64), flags)) by {
            lemma_vpn_bounds(x);
            assert(post.tbl(0)[vpn2(x) as int] == mid.tbl(0)[idx2 as int]);
            assert(post.tbl(j1 as int)[vpn1(x) as int] == mid.tbl(j1 as int)[idx1 as int]);
            assert(entry_is_link(mid.tbl(j1 as int)[idx1 as int]));
            assert(post.tbl(j0 as int)[vpn0(x) as int] == e);
        };
        // translation elsewhere
        assert forall|x: u64|
            !(vpn2(x) == vpn2(vaddr) && vpn1(x) == vpn1(vaddr) && vpn0(x) == vpn0(vaddr))
            implies #[trigger] post.translate(x) == old(root_table).translate(x) by {
            lemma_l0_leaf_frame(mid, post, j1 as int, j0 as int, idx2 as int, idx1 as int,
                idx0 as int, x);
            assert(mid.translate(x) == m1.translate(x));
            assert(m1.translate(x) == old(root_table).translate(x));
        };
        assert forall|x: u64| #[trigger] post.huge_leaf_at(x)
            == old(root_table).huge_leaf_at(x) by {
            if vpn2(x) == vpn2(vaddr) && vpn1(x) == vpn1(vaddr) && vpn0(x) == vpn0(vaddr) {
                // the walk to the huge levels reads only the two link slots
                assert(post.tbl(0)[vpn2(x) as int] == mid.tbl(0)[idx2 as int]);
                assert(post.tbl(j1 as int)[vpn1(x) as int] == mid.tbl(j1 as int)[idx1 as int]);
                assert(entry_is_link(mid.tbl(j1 as int)[idx1 as int]));
                assert(!post.huge_leaf_at(x));
                assert(mid.huge_leaf_at(x) == m1.huge_leaf_at(x));
                assert(m1.huge_leaf_at(x) == old(root_table).huge_leaf_at(x));
                assert(old(root_table).huge_leaf_at(x) == old(root_table).huge_leaf_at(vaddr))
                    by {
                    assert(old(root_table).table_ok(0));
                };
            } else {
                lemma_l0_leaf_frame(mid, post, j1 as int, j0 as int, idx2 as int, idx1 as int,
                    idx0 as int, x);
                assert(mid.huge_leaf_at(x) == m1.huge_leaf_at(x));
                assert(m1.huge_leaf_at(x) == old(root_table).huge_leaf_at(x));
            }
        };
        // the root table is untouched outside its one slot
        assert forall|k: int| 0 <= k < ENTRY_COUNT && k != vpn2(vaddr)
            implies #[trigger] post.tbl(0)[k] == old(root_table).tbl(0)[k] by {
            assert(old(root_table).table_ok(0));
            assert(mid.levels@[0] == 2);
            assert(j0 as int != 0);
            assert(post.tbl(0) == mid.tbl(0));
            assert(mid.tbl(0) == m1.tbl(0));
            assert(m1.tbl(0) == old(root_table).tbl(0).update(
                idx2 as int, m1.tbl(0)[idx2 as int]));
        };
        // allocation accounting: a table is allocated exactly for each slot
        // of the path that was invalid, and none when both already linked
        let pre0 = *old(root_table);
        if entry_valid(pre0.tbl(0)[idx2 as int]) {
            assert(m1.tables@.len() == pre0.tables@.len());
            assert(m1.tbl(0) == pre0.tbl(0));
            assert(forall|i: int| 1 <= i < pre0.tables@.len()
                ==> #[trigger] m1.tbl(i) == pre0.tbl(i));
            assert(j1 as int == pre0.link_target(pre0.tbl(0)[idx2 as int]));
            assert(pre0.mid_entry(vaddr) == Some(m1.tbl(j1 as int)[idx1 as int]));
            if entry_valid(m1.tbl(j1 as int)[idx1 as int]) {
                assert(mid.tables@.len() == m1.tables@.len());
                assert(mid.tbl(j1 as int) == m1.tbl(j1 as int));
                assert(forall|i: int| 0 <= i < m1.tables@.len() && i != j1 as int
                    ==> #[trigger] mid.tbl(i) == m1.tbl(i));
                assert(j0 as int == m1.link_target(m1.tbl(j1 as int)[idx1 as int]));
                assert(j0 as int
                    == pre0.link_target(pre0.mid_entry(vaddr)->Some_0));
                assert(forall|i: int| 0 <= i < pre0.tables@.len() && i != j0 as int
                    ==> #[trigger] post.tbl(i) == pre0.tbl(i));
                assert(post.tbl(j0 as int) == pre0.tbl(j0 as int).update(
                    idx0 as int, post.tbl(j0 as int)[idx0 as int]));
            }
        } else {
            assert(pre0.mid_entry(vaddr) is None);
            assert(m1.tables@.len() == pre0.tables@.len() + 1);
            assert(m1.tbl(j1 as int)[idx1 as int] == 0);
            lemma_zero_entry_invalid();
        }
        // valid entries are only replaced by leaves
        assert(entries_monotone(pre0, post)) by {
            assert forall|i: int, k: int|
                0 <= i < pre0.tables@.len() && 0 <= k < ENTRY_COUNT
                    && entry_valid(#[trigger] pre0.tbl(i)[k])
                implies (post.tbl(i)[k] == pre0.tbl(i)[k] || entry_is_leaf(post.tbl(i)[k]))
                by {
                assert(pre0.table_ok(i));
                if i == j0 as int && k == idx0 as int {
                    assert(entry_is_leaf(post.tbl(i)[k]));
                } else {
                    if i == j0 as int {
                        assert(post.tbl(j0 as int) == mid.tbl(j0 as int).update(
                            idx0 as int, post.tbl(j0 as int)[idx0 as int]));
                        assert(post.tbl(i)[k] == mid.tbl(i)[k]);
                    } else {
                        assert(post.tbl(i) == mid.tbl(i));
                    }
                    if i == j1 as int && k == idx1 as int {
                        // the middle slot held a link, which ensure_l0 reused
                        assert(entry_is_link(m1.tbl(j1 as int)[idx1 as int]));
                        assert(mid.tables@.len() == m1.tables@.len());
                        assert(mid.tbl(j1 as int) == m1.tbl(j1 as int));
                    } else if i == j1 as int {
                        assert(mid.tbl(j1 as int) == m1.tbl(j1 as int).update(
                            idx1 as int, mid.tbl(j1 as int)[idx1 as int]));
                        assert(mid.tbl(i)[k] == m1.tbl(i)[k]);
                    } else {
                        assert(mid.tbl(i) == m1.tbl(i));
                    }
                    if i == 0 && k == idx2 as int {
                        // the top slot held a link, which ensure_l1 reused
                        assert(m1.tables@.len() == pre0.tables@.len());
                        assert(m1.tbl(0) == pre0.tbl(0));
                    } else if i == 0 {
                        assert(m1.tbl(0)[k] == pre0.tbl(0)[k]);
                    } else {
                        assert(m1.tbl(i) == pre0.tbl(i));
                    }
                }
            };
        };
    }
}

/// The whole 1 GiB range of top-level slot `k` lies inside the region, and
/// the physical range is aligned with the slot: the greedy choice serves
/// such a slot with a single top-level leaf.
pub open spec fn interior_1g_slot(vaddr: u64, paddr: u64, size: u64, k: int) -> bool {
    &&& vaddr <= k * L2_PAGE_SIZE
    &&& (k + 1) * L2_PAGE_SIZE <= vaddr + size
    &&& (paddr + (k * L2_PAGE_SIZE - vaddr)) % (L2_PAGE_SIZE as int) == 0
}

/// What `map_region` establishes: the region translates to the requested
/// physical range with exactly the requested permission bits, everything else
/// translates as before, top-level slots outside the region's reach are
/// untouched, valid entries are only ever replaced by leaves — so a table is
/// allocated only for a slot that was invalid — every slot whose whole,
/// aligned 1 GiB range the region covers is served by a single top-level
/// leaf, and a region aligned to the largest granularity throughout is
/// served by top-level leaves alone, with no new tables.
pub open spec fn map_region_post(
    pre: GuestPageTable,
    post: GuestPageTable,
    vaddr: u64,
    paddr: u64,
    flags: u64,
    size: u64,
) -> bool {
    &&& post.wf()
    &&& post.base == pre.base
    &&& post.tables@.len() * 4096 <= pre.tables@.len() * 4096 + 2 * size
    &&& entries_monotone(pre, post)
    &&& forall|k: int| interior_1g_slot(vaddr, paddr, size, k)
        ==> entry_is_leaf(#[trigger] post.tbl(0)[k])
    &&& forall|x: u64| vaddr <= x < vaddr + size ==> #[trigger] post.translate(x)
        == Some((((paddr + (x - vaddr)) as u64), flags))
    &&& forall|x: u64| x < VA_LIMIT_3LVL && !(vaddr <= x < vaddr + size)
        ==> #[trigger] post.translate(x) == pre.translate(x)
    &&& forall|k: int| 0 <= k < ENTRY_COUNT
        && !(vpn2(vaddr) <= k <= vpn2((vaddr + size - 1) as u64))
        ==> #[trigger] post.tbl(0)[k] == pre.tbl(0)[k]
    &&& ((vaddr % L2_PAGE_SIZE == 0 && paddr % L2_PAGE_SIZE == 0 && size % L2_PAGE_SIZE == 0)
        ==> {
        &&& post.tables@.len() == pre.tables@.len()
        &&& forall|i: int| 1 <= i < pre.tables@.len() ==> #[trigger] post.tbl(i) == pre.tbl(i)
        &&& forall|k: int|
            vpn2(vaddr) <= k && (k - vpn2(vaddr)) * L2_PAGE_SIZE < size
                ==> entry_is_leaf(#[trigger] post.tbl(0)[k])
        &&& forall|k: int|
            0 <= k < ENTRY_COUNT && !(vpn2(vaddr) <= k
                && (k - vpn2(vaddr)) * L2_PAGE_SIZE < size)
                ==> #[trigger] post.tbl(0)[k] == pre.tbl(0)[k]
    })
}

/// Maps the region `[vaddr, vaddr + size)` to `[paddr, paddr + size)` with
/// the given permission flags, choosing the largest granularity whose
/// alignment and remaining size allow it at every step and falling back to
/// 4 KiB pages.
#[verifier::rlimit(100)]
pub fn map_region(root_table: &mut GuestPageTable, vaddr: u64, paddr: u64, flags: u64, size: u64)
    requires
        old(root_table).wf(),
        vaddr % PAGE_SIZE == 0,
        paddr % PAGE_SIZE == 0,
        size % PAGE_SIZE == 0,
        size > 0,
        vaddr + size <= VA_LIMIT_3LVL,
        paddr + size <= PHYS_ADDR_LIMIT,
        leaf_flags_ok(flags),
        old(root_table).region_clear(vaddr, size),
        old(root_table).base + old(root_table).tables@.len() * 4096 + 2 * size
            <= PHYS_ADDR_LIMIT,
    ensures
        map_region_post(*old(root_table), *final(root_table), vaddr, paddr, flags, size),
{
    proof {
        lemma_entries_monotone_refl(*old(root_table));
        lemma_vpn2_floor(vaddr);
    }
    let mut va = vaddr;
    let mut pa = paddr;
    let mut rem = size;
    while rem > 0
        invariant
            root_table.wf(),
            root_table.base == old(root_table).base,
            vaddr % PAGE_SIZE == 0,
            paddr % PAGE_SIZE == 0,
            size % PAGE_SIZE == 0,
            size > 0,
            vaddr + size <= VA_LIMIT_3LVL,
            paddr + size <= PHYS_ADDR_LIMIT,
            leaf_flags_ok(flags),
            rem <= size,
            rem % PAGE_SIZE == 0,
            va == vaddr + (size - rem),
            pa == paddr + (size - rem),
            va % PAGE_SIZE == 0,
            pa % PAGE_SIZE == 0,
            root_table.region_clear(va, rem),
            root_table.base + root_table.tables@.len() * 4096 + 2 * rem <= PHYS_ADDR_LIMIT,
            root_table.tables@.len() * 4096 + 2 * rem
                <= old(root_table).tables@.len() * 4096 + 2 * size,
            old(root_table).tables@.len() <= root_table.tables@.len(),
            entries_monotone(*old(root_table), *root_table),
            forall|k: int| interior_1g_slot(vaddr, paddr, size, k)
                && (k + 1) * L2_PAGE_SIZE <= va
                ==> entry_is_leaf(#[trigger] root_table.tbl(0)[k]),
            va % L2_PAGE_SIZE != 0
                ==> !interior_1g_slot(vaddr, paddr, size, vpn2(va) as int),
            forall|x: u64| vaddr <= x < va ==> #[trigger] root_table.translate(x)
                == Some((((paddr + (x - vaddr)) as u64), flags)),
            forall|x: u64| x < VA_LIMIT_3LVL && !(vaddr <= x < vaddr + size)
                ==> #[trigger] root_table.translate(x) == old(root_table).translate(x),
            forall|k: int| 0 <= k < ENTRY_COUNT
                && !(vpn2(vaddr) <= k <= vpn2((vaddr + size - 1) as u64))
                ==> #[trigger] root_table.tbl(0)[k] == old(root_table).tbl(0)[k],
            (vaddr % L2_PAGE_SIZE == 0 && paddr % L2_PAGE_SIZE == 0
                && size % L2_PAGE_SIZE == 0) ==> {
                &&& va % L2_PAGE_SIZE == 0
                &&& pa % L2_PAGE_SIZE == 0
                &&& rem % L2_PAGE_SIZE == 0
                &&& root_table.tables@.len() == old(root_table).tables@.len()
                &&& forall|i: int| 1 <= i < old(root_table).tables@.len()
                    ==> #[trigger] root_table.tbl(i) == old(root_table).tbl(i)
                &&& forall|k: int|
                    vpn2(vaddr) <= k && (k - vpn2(vaddr)) * L2_PAGE_SIZE < size - rem
                        ==> entry_is_leaf(#[trigger] root_table.tbl(0)[k])
                &&& forall|k: int|
                    0 <= k < ENTRY_COUNT && !(vpn2(vaddr) <= k
                        && (k - vpn2(vaddr)) * L2_PAGE_SIZE < size - rem)
                        ==> #[trigger] root_table.tbl(0)[k] == old(root_table).tbl(0)[k]
            },
        decreases rem,
    {
        let ghost aligned = vaddr % L2_PAGE_SIZE == 0 && paddr % L2_PAGE_SIZE == 0
            && size % L2_PAGE_SIZE == 0;
        let ghost pre = *root_table;
        let ghost va0 = va;
        let ghost pa0 = pa;
        let ghost rem0 = rem;
        if va % L2_PAGE_SIZE == 0 && pa % L2_PAGE_SIZE == 0 && rem >= L2_PAGE_SIZE {
            map_1gib_region(root_table, va, pa, flags);
            va = va + L2_PAGE_SIZE;
            pa = pa + L2_PAGE_SIZE;
            rem = rem - L2_PAGE_SIZE;
            proof {
                let t = *root_table;
                lemma_entries_monotone_trans(*old(root_table), pre, t);
                // interior slots with whole, aligned 1 GiB coverage are
                // top-level leaves: those before this step, and the one it maps
                lemma_vpn2_floor(va0);
                assert(vpn2(va0) * L2_PAGE_SIZE == va0);
                assert forall|k: int|
                    interior_1g_slot(vaddr, paddr, size, k)
                        && (k + 1) * L2_PAGE_SIZE <= va0 + L2_PAGE_SIZE
                    implies entry_is_leaf(#[trigger] t.tbl(0)[k]) by {
                    assert(0 <= k < ENTRY_COUNT);
                    assert(pre.table_ok(0));
                    if (k + 1) * L2_PAGE_SIZE <= va0 {
                        assert(k != vpn2(va0));
                        assert(entry_is_leaf(pre.tbl(0)[k]));
                        assert(t.tbl(0) == pre.tbl(0).update(vpn2(va0) as int,
                            t.tbl(0)[vpn2(va0) as int]));
                        assert(t.tbl(0)[k] == pre.tbl(0)[k]);
                    } else {
                        vstd::arithmetic::div_mod::lemma_mod_multiples_basic(k + 1,
                            L2_PAGE_SIZE as int);
                        lemma_mod_sub_zero((k + 1) * L2_PAGE_SIZE, va0 as int,
                            L2_PAGE_SIZE as int);
                        lemma_pos_multiple((k + 1) * L2_PAGE_SIZE - va0,
                            L2_PAGE_SIZE as int);
                        assert(k == vpn2(va0));
                    }
                };

                lemma_vpn_bounds(va0);
                lemma_mod_add_zero(va0 as int, L2_PAGE_SIZE as int, PAGE_SIZE as int);
                lemma_mod_add_zero(pa0 as int, L2_PAGE_SIZE as int, PAGE_SIZE as int);
                lemma_mod_sub_zero(rem0 as int, L2_PAGE_SIZE as int, PAGE_SIZE as int);
                if aligned {
                    lemma_mod_add_zero(va0 as int, L2_PAGE_SIZE as int, L2_PAGE_SIZE as int);
                    lemma_mod_add_zero(pa0 as int, L2_PAGE_SIZE as int, L2_PAGE_SIZE as int);
                    lemma_mod_sub_zero(rem0 as int, L2_PAGE_SIZE as int, L2_PAGE_SIZE as int);
                }
                // the mapped 1 GiB chunk is exactly the top-level slot
                assert forall|x: u64| vaddr <= x < va implies #[trigger] t.translate(x)
                    == Some((((paddr + (x - vaddr)) as u64), flags)) by {
                    lemma_vpn_1g_range(va0, x);
                    if va0 <= x {
                        assert(vpn2(x) == vpn2(va0));
                        assert(t.translate(x)
                            == Some((((pa0 + x % L2_PAGE_SIZE) as u64), flags)));
                    } else {
                        assert(vpn2(x) != vpn2(va0));
                    }
                };
                assert forall|x: u64| x < VA_LIMIT_3LVL && !(vaddr <= x < vaddr + size)
                    implies #[trigger] t.translate(x) == old(root_table).translate(x) by {
                    lemma_vpn_1g_range(va0, x);
                    assert(vpn2(x) != vpn2(va0));
                };
                assert(t.region_clear(va, rem)) by {
                    assert forall|x: u64| va <= x < va + rem
                        implies !(#[trigger] t.huge_leaf_at(x)) by {
                        lemma_vpn_1g_range(va0, x);
                        assert(vpn2(x) != vpn2(va0));
                        assert(pre.huge_leaf_at(x) == t.huge_leaf_at(x));
                        assert(!pre.huge_leaf_at(x));
                    };
                };
                assert forall|k: int| 0 <= k < ENTRY_COUNT
                    && !(vpn2(vaddr) <= k <= vpn2((vaddr + size - 1) as u64))
                    implies #[trigger] t.tbl(0)[k] == old(root_table).tbl(0)[k] by {
                    lemma_vpn2_mono(vaddr, va0);
                    lemma_vpn2_mono(va0, (vaddr + size - 1) as u64);
                    assert(pre.table_ok(0));
                    assert(t.tbl(0) == pre.tbl(0).update(vpn2(va0) as int,
                        t.tbl(0)[vpn2(va0) as int]));
                    assert(k != vpn2(va0) as int);
                    assert(pre.tbl(0).update(vpn2(va0) as int,
                        t.tbl(0)[vpn2(va0) as int])[k] == pre.tbl(0)[k]);
                    assert(t.tbl(0)[k] == pre.tbl(0)[k]);
                    assert(pre.tbl(0)[k] == old(root_table).tbl(0)[k]);
                };
                if aligned {
                    let d = (va0 - vaddr) as u64;
                    lemma_vpn2_diff(vaddr, d, va0);
                    let q = d / L2_PAGE_SIZE;
                    assert(vpn2(va0) == vpn2(vaddr) + q);
                    assert(d % L2_PAGE_SIZE == 0) by {
                        lemma_mod_sub_zero(va0 as int, vaddr as int, L2_PAGE_SIZE as int);
                    };
                    assert(d == L2_PAGE_SIZE * q) by {
                        vstd::arithmetic::div_mod::lemma_fundamental_div_mod(
                            d as int, L2_PAGE_SIZE as int);
                    };
                    assert((vpn2(va0) - vpn2(vaddr)) * L2_PAGE_SIZE == size - rem0);
                    assert forall|k: int|
                        vpn2(vaddr) <= k && (k - vpn2(vaddr)) * L2_PAGE_SIZE < size - rem
                        implies entry_is_leaf(#[trigger] t.tbl(0)[k]) by {
                        assert(pre.table_ok(0));
                        assert(t.tbl(0) == pre.tbl(0).update(vpn2(va0) as int,
                            t.tbl(0)[vpn2(va0) as int]));
                        if k != vpn2(va0) {
                            assert((k - vpn2(vaddr)) * L2_PAGE_SIZE
                                < (vpn2(va0) - vpn2(vaddr)) * L2_PAGE_SIZE + L2_PAGE_SIZE);
                            assert(k < vpn2(va0) + 1);
                            assert(k < vpn2(va0));
                            assert((k - vpn2(vaddr)) * L2_PAGE_SIZE < size - rem0);
                            assert(entry_is_leaf(pre.tbl(0)[k]));
                            assert(pre.tbl(0).update(vpn2(va0) as int,
                                t.tbl(0)[vpn2(va0) as int])[k] == pre.tbl(0)[k]);
                        }
                    };
                    assert forall|k: int|
                        0 <= k < ENTRY_COUNT && !(vpn2(vaddr) <= k
                            && (k - vpn2(vaddr)) * L2_PAGE_SIZE < size - rem)
                        implies #[trigger] t.tbl(0)[k] == old(root_table).tbl(0)[k] by {
                        assert(pre.table_ok(0));
                        assert(t.tbl(0) == pre.tbl(0).update(vpn2(va0) as int,
                            t.tbl(0)[vpn2(va0) as int]));
                        assert(k != vpn2(va0));
                        assert(pre.tbl(0).update(vpn2(va0) as int,
                            t.tbl(0)[vpn2(va0) as int])[k] == pre.tbl(0)[k]);
                        assert(pre.tbl(0)[k] == old(root_table).tbl(0)[k]);
                    };
                }
            }
        } else if va % L1_PAGE_SIZE == 0 && pa % L1_PAGE_SIZE == 0 && rem >= L1_PAGE_SIZE {
            proof {
                assert(!pre.huge_leaf_at(va0));
                if aligned {
                    lemma_pos_multiple(rem0 as int, L2_PAGE_SIZE as int);
                    assert(false);
                }
            }
            map_2mib_region(root_table, va, pa, flags);
            va = va + L1_PAGE_SIZE;
            pa = pa + L1_PAGE_SIZE;
            rem = rem - L1_PAGE_SIZE;
            proof {
                let t = *root_table;
                lemma_entries_monotone_trans(*old(root_table), pre, t);
                // a step inside a slot never begins one with whole,
                // aligned coverage: at such a slot's base the largest
                // granularity would have been chosen
                lemma_vpn2_floor(va0);
                assert forall|k: int|
                    interior_1g_slot(vaddr, paddr, size, k)
                        && (k + 1) * L2_PAGE_SIZE <= va0 + L1_PAGE_SIZE
                    implies entry_is_leaf(#[trigger] t.tbl(0)[k]) by {
                    assert(0 <= k < ENTRY_COUNT);
                    if (k + 1) * L2_PAGE_SIZE <= va0 {
                        assert(entry_is_leaf(pre.tbl(0)[k]));
                        assert(k != vpn2(va0));
                        assert(t.tbl(0)[k] == pre.tbl(0)[k]);
                    } else {
                        assert(k * L2_PAGE_SIZE < va0 && va0 < (k + 1) * L2_PAGE_SIZE);
                        assert(k == vpn2(va0));
                        if va0 % L2_PAGE_SIZE == 0 {
                            assert(va0 == vpn2(va0) * L2_PAGE_SIZE);
                        }
                        assert(!interior_1g_slot(vaddr, paddr, size, vpn2(va0) as int));
                        assert(false);
                    }
                };
                assert((va0 + L1_PAGE_SIZE) % (L2_PAGE_SIZE as int) != 0
                    ==> !interior_1g_slot(vaddr, paddr, size,
                        vpn2((va0 + L1_PAGE_SIZE) as u64) as int)) by {
                    if (va0 + L1_PAGE_SIZE) % (L2_PAGE_SIZE as int) != 0 {
                        let van = (va0 + L1_PAGE_SIZE) as u64;
                        assert(van < VA_LIMIT_3LVL);
                        lemma_vpn2_floor(van);
                        assert(vpn2(van) == vpn2(va0)) by {
                            if vpn2(van) != vpn2(va0) {
                                lemma_vpn2_mono(va0, van);
                                // a slot boundary inside the step would be
                                // aligned to the step, forcing it to the end
                                let b = vpn2(van) * L2_PAGE_SIZE;
                                assert(b <= van);
                                assert(va0 < b) by {
                                    assert(va0 - vpn2(va0) * L2_PAGE_SIZE < L2_PAGE_SIZE);
                                    assert((vpn2(va0) + 1) * L2_PAGE_SIZE <= b);
                                };
                                assert(b % (L1_PAGE_SIZE as int) == 0) by {
                                    vstd::arithmetic::div_mod::lemma_mod_multiples_basic(
                                        vpn2(van) as int * 512, L1_PAGE_SIZE as int);
                                    assert(vpn2(van) * L2_PAGE_SIZE
                                        == (vpn2(van) as int * 512) * L1_PAGE_SIZE);
                                };
                                lemma_mod_sub_zero(b, va0 as int, L1_PAGE_SIZE as int);
                                lemma_pos_multiple(b - va0, L1_PAGE_SIZE as int);
                                assert(b == van);
                                vstd::arithmetic::div_mod::lemma_mod_multiples_basic(
                                    vpn2(van) as int, L2_PAGE_SIZE as int);
                                assert(van % L2_PAGE_SIZE == 0);
                                assert(false);
                            }
                        };
                        if va0 % L2_PAGE_SIZE == 0 {
                            assert(vpn2(va0) * L2_PAGE_SIZE == va0);
                            if interior_1g_slot(vaddr, paddr, size, vpn2(va0) as int) {
                                assert((paddr + (vpn2(va0) * L2_PAGE_SIZE - vaddr))
                                    % (L2_PAGE_SIZE as int) == 0);
                                assert(pa0 == paddr + (va0 - vaddr));
                                assert(pa0 % L2_PAGE_SIZE == 0);
                                assert(rem0 >= L2_PAGE_SIZE) by {
                                    assert((vpn2(va0) as int + 1) * L2_PAGE_SIZE
                                        <= vaddr + size);
                                };
                                assert(false);
                            }
                        } else {
                            assert(!interior_1g_slot(vaddr, paddr, size,
                                vpn2(va0) as int));
                        }
                    }
                };

                lemma_mod_add_zero(va0 as int, L1_PAGE_SIZE as int, PAGE_SIZE as int);
                lemma_mod_add_zero(pa0 as int, L1_PAGE_SIZE as int, PAGE_SIZE as int);
                lemma_mod_sub_zero(rem0 as int, L1_PAGE_SIZE as int, PAGE_SIZE as int);
                assert forall|x: u64| vaddr <= x < va implies #[trigger] t.translate(x)
                    == Some((((paddr + (x - vaddr)) as u64), flags)) by {
                    lemma_vpn_2m_range(va0, x);
                    if va0 <= x {
                        assert(t.translate(x)
                            == Some((((pa0 + x % L1_PAGE_SIZE) as u64), flags)));
                    }
                };
                assert forall|x: u64| x < VA_LIMIT_3LVL && !(vaddr <= x < vaddr + size)
                    implies #[trigger] t.translate(x) == old(root_table).translate(x) by {
                    lemma_vpn_2m_range(va0, x);
                };
                assert(t.region_clear(va, rem)) by {
                    assert forall|x: u64| va <= x < va + rem
                        implies !(#[trigger] t.huge_leaf_at(x)) by {
                        lemma_vpn_2m_range(va0, x);
                        assert(t.huge_leaf_at(x) == pre.huge_leaf_at(x));
                        assert(!pre.huge_leaf_at(x));
                    };
                };
                assert forall|k: int| 0 <= k < ENTRY_COUNT
                    && !(vpn2(vaddr) <= k <= vpn2((vaddr + size - 1) as u64))
                    implies #[trigger] t.tbl(0)[k] == old(root_table).tbl(0)[k] by {
                    lemma_vpn2_mono(vaddr, va0);
                    lemma_vpn2_mono(va0, (vaddr + size - 1) as u64);
                };
            }
        } else {
            proof {
                assert(!pre.huge_leaf_at(va0));
                if aligned {
                    lemma_pos_multiple(rem0 as int, L2_PAGE_SIZE as int);
                    assert(false);
                }
            }
            map_4k_region(root_table, va, pa, flags);
            va = va + PAGE_SIZE;
            pa = pa + PAGE_SIZE;
            rem = rem - PAGE_SIZE;
            proof {
                let t = *root_table;
                lemma_entries_monotone_trans(*old(root_table), pre, t);
                // a step inside a slot never begins one with whole,
                // aligned coverage: at such a slot's base the largest
                // granularity would have been chosen
                lemma_vpn2_floor(va0);
                assert forall|k: int|
                    interior_1g_slot(vaddr, paddr, size, k)
                        && (k + 1) * L2_PAGE_SIZE <= va0 + PAGE_SIZE
                    implies entry_is_leaf(#[trigger] t.tbl(0)[k]) by {
                    assert(0 <= k < ENTRY_COUNT);
                    if (k + 1) * L2_PAGE_SIZE <= va0 {
                        assert(entry_is_leaf(pre.tbl(0)[k]));
                        assert(k != vpn2(va0));
                        assert(t.tbl(0)[k] == pre.tbl(0)[k]);
                    } else {
                        assert(k * L2_PAGE_SIZE < va0 && va0 < (k + 1) * L2_PAGE_SIZE);
                        assert(k == vpn2(va0));
                        if va0 % L2_PAGE_SIZE == 0 {
                            assert(va0 == vpn2(va0) * L2_PAGE_SIZE);
                        }
                        assert(!interior_1g_slot(vaddr, paddr, size, vpn2(va0) as int));
                        assert(false);
                    }
                };
                assert((va0 + PAGE_SIZE) % (L2_PAGE_SIZE as int) != 0
                    ==> !interior_1g_slot(vaddr, paddr, size,
                        vpn2((va0 + PAGE_SIZE) as u64) as int)) by {
                    if (va0 + PAGE_SIZE) % (L2_PAGE_SIZE as int) != 0 {
                        let van = (va0 + PAGE_SIZE) as u64;
                        assert(van < VA_LIMIT_3LVL);
                        lemma_vpn2_floor(van);
                        assert(vpn2(van) == vpn2(va0)) by {
                            if vpn2(van) != vpn2(va0) {
                                lemma_vpn2_mono(va0, van);
                                // a slot boundary inside the step would be
                                // aligned to the step, forcing it to the end
                                let b = vpn2(van) * L2_PAGE_SIZE;
                                assert(b <= van);
                                assert(va0 < b) by {
                                    assert(va0 - vpn2(va0) * L2_PAGE_SIZE < L2_PAGE_SIZE);
                                    assert((vpn2(va0) + 1) * L2_PAGE_SIZE <= b);
                                };
                                assert(b % (PAGE_SIZE as int) == 0) by {
                                    vstd::arithmetic::div_mod::lemma_mod_multiples_basic(
                                        vpn2(van) as int * 0x40000, PAGE_SIZE as int);
                                    assert(vpn2(van) * L2_PAGE_SIZE
                                        == (vpn2(van) as int * 0x40000) * PAGE_SIZE);
                                };
                                lemma_mod_sub_zero(b, va0 as int, PAGE_SIZE as int);
                                lemma_pos_multiple(b - va0, PAGE_SIZE as int);
                                assert(b == van);
                                vstd::arithmetic::div_mod::lemma_mod_multiples_basic(
                                    vpn2(van) as int, L2_PAGE_SIZE as int);
                                assert(van % L2_PAGE_SIZE == 0);
                                assert(false);
                            }
                        };
                        if va0 % L2_PAGE_SIZE == 0 {
                            assert(vpn2(va0) * L2_PAGE_SIZE == va0);
                            if interior_1g_slot(vaddr, paddr, size, vpn2(va0) as int) {
                                assert((paddr + (vpn2(va0) * L2_PAGE_SIZE - vaddr))
                                    % (L2_PAGE_SIZE as int) == 0);
                                assert(pa0 == paddr + (va0 - vaddr));
                                assert(pa0 % L2_PAGE_SIZE == 0);
                                assert(rem0 >= L2_PAGE_SIZE) by {
                                    assert((vpn2(va0) as int + 1) * L2_PAGE_SIZE
                                        <= vaddr + size);
                                };
                                assert(false);
                            }
                        } else {
                            assert(!interior_1g_slot(vaddr, paddr, size,
                                vpn2(va0) as int));
                        }
                    }
                };

                assert forall|x: u64| vaddr <= x < va implies #[trigger] t.translate(x)
                    == Some((((paddr + (x - vaddr)) as u64), flags)) by {
                    lemma_vpn_page_range(va0, x);
                    if va0 <= x {
                        assert(t.translate(x)
                            == Some((((pa0 + x % PAGE_SIZE) as u64), flags)));
                    }
                };
                assert forall|x: u64| x < VA_LIMIT_3LVL && !(vaddr <= x < vaddr + size)
                    implies #[trigger] t.translate(x) == old(root_table).translate(x) by {
                    lemma_vpn_page_range(va0, x);
                };
                assert(t.region_clear(va, rem)) by {
                    assert forall|x: u64| va <= x < va + rem
                        implies !(#[trigger] t.huge_leaf_at(x)) by {
                        assert(t.huge_leaf_at(x) == pre.huge_leaf_at(x));
                        assert(!pre.huge_leaf_at(x));
                    };
                };
                assert forall|k: int| 0 <= k < ENTRY_COUNT
                    && !(vpn2(vaddr) <= k <= vpn2((vaddr + size - 1) as u64))
                    implies #[trigger] t.tbl(0)[k] == old(root_table).tbl(0)[k] by {
                    lemma_vpn2_mono(vaddr, va0);
                    lemma_vpn2_mono(va0, (vaddr + size - 1) as u64);
                };
            }
        }
    }
}

/// Start of the guest's RAM region in its virtual address space.
pub const GUEST_RAM_VADDR: u64 = 0x8000_0000;

/// Size of the guest's RAM region.
pub const GUEST_MEM_SIZE: u64 = 0xFFFF_0000 - 0x8000_0000;

/// Start of the guest's ROM region in its virtual address space.
pub const GUEST_ROM_VADDR: u64 = 0x2000_0000;

/// Size of the guest's ROM region.
pub const GUEST_ROM_SIZE: u64 = 0x3000_0000 - 0x2000_0000;

/// Builds the guest's address space: its RAM region mapped read-write onto
/// `[paddr_start, paddr_start + GUEST_MEM_SIZE)`, and its ROM region mapped
/// read-only onto the range that follows. Nothing else translates.
pub fn create_guest_page_table(paddr_start: u64) -> (t: GuestPageTable)
    requires
        paddr_start % PAGE_SIZE == 0,
        paddr_start + GUEST_MEM_SIZE + GUEST_ROM_SIZE <= PHYS_ADDR_LIMIT,
    ensures
        t.wf(),
        forall|x: u64| GUEST_RAM_VADDR <= x < GUEST_RAM_VADDR + GUEST_MEM_SIZE
            ==> #[trigger] t.translate(x)
                == Some((((paddr_start + (x - GUEST_RAM_VADDR)) as u64), PTE_R | PTE_W)),
        forall|x: u64| GUEST_ROM_VADDR <= x < GUEST_ROM_VADDR + GUEST_ROM_SIZE
            ==> #[trigger] t.translate(x)
                == Some((((paddr_start + GUEST_MEM_SIZE + (x - GUEST_ROM_VADDR)) as u64),
                    PTE_R)),
        forall|x: u64| x < VA_LIMIT_3LVL
            && !(GUEST_RAM_VADDR <= x < GUEST_RAM_VADDR + GUEST_MEM_SIZE)
            && !(GUEST_ROM_VADDR <= x < GUEST_ROM_VADDR + GUEST_ROM_SIZE)
            ==> #[trigger] t.translate(x) is None,
{
    let mut root_table = allocate_page_table();
    let ghost t0 = root_table;
    proof {
        assert(leaf_flags_ok(PTE_R | PTE_W) && leaf_flags_ok(PTE_R)) by (bit_vector);
        lemma_zero_entry_invalid();
        assert forall|x: u64| GUEST_RAM_VADDR <= x < GUEST_RAM_VADDR + GUEST_MEM_SIZE
            implies !(#[trigger] t0.huge_leaf_at(x)) by {
            lemma_vpn_bounds(x);
        };
    }
    map_region(&mut root_table, GUEST_RAM_VADDR, paddr_start, PTE_R | PTE_W, GUEST_MEM_SIZE);
    let ghost t1 = root_table;
    let rom_paddr = paddr_start + GUEST_MEM_SIZE;
    proof {
        assert((0x8000_0000u64 >> 30) & 0x1FFu64 == 2
            && (0xFFFE_FFFFu64 >> 30) & 0x1FFu64 == 3) by (bit_vector);
        assert(vpn2((GUEST_RAM_VADDR + GUEST_MEM_SIZE - 1) as u64) == 3);
        assert forall|x: u64| GUEST_ROM_VADDR <= x < GUEST_ROM_VADDR + GUEST_ROM_SIZE
            implies !(#[trigger] t1.huge_leaf_at(x)) by {
            lemma_vpn_bounds(x);
            lemma_vpn_1g_range(0, x);
            assert(vpn2(0) == 0) by (bit_vector);
            assert(vpn2(x) == 0);
            assert(t1.tbl(0)[0] == t0.tbl(0)[0]);
            lemma_zero_entry_invalid();
        };
    }
    map_region(&mut root_table, GUEST_ROM_VADDR, rom_paddr, PTE_R, GUEST_ROM_SIZE);
    proof {
        let t2 = root_table;
        assert forall|x: u64| GUEST_RAM_VADDR <= x < GUEST_RAM_VADDR + GUEST_MEM_SIZE
            implies #[trigger] t2.translate(x)
                == Some((((paddr_start + (x - GUEST_RAM_VADDR)) as u64), PTE_R | PTE_W)) by {
            assert(t2.translate(x) == t1.translate(x));
            assert(t1.translate(x)
                == Some((((paddr_start + (x - GUEST_RAM_VADDR)) as u64), PTE_R | PTE_W)));
        };
        assert forall|x: u64| x < VA_LIMIT_3LVL
            && !(GUEST_RAM_VADDR <= x < GUEST_RAM_VADDR + GUEST_MEM_SIZE)
            && !(GUEST_ROM_VADDR <= x < GUEST_ROM_VADDR + GUEST_ROM_SIZE)
            implies #[trigger] t2.translate(x) is None by {
            assert(t2.translate(x) == t1.translate(x));
            assert(t1.translate(x) == t0.translate(x));
        };
    }
    root_table
}

/// Walks the table for a virtual address, as the hardware would: the
/// physical address and permission bits of its mapping, if one is installed.
pub fn lookup(t: &GuestPageTable, va: u64) -> (r: Option<(u64, u64)>)
    requires
        t.wf(),
    ensures
        r == t.translate(va),
{
    proof {
        assert(t.table_ok(0));
        lemma_vpn_bounds(va);
    }
    let i2 = vpn2_of(va) as usize;
    let e2 = t.tables[0][i2];
    if is_leaf_entry(e2) {
        proof {
            lemma_entry_addr_bound(e2);
        }
        Some((entry_addr_of(e2) + va % L2_PAGE_SIZE, e2 & 0xFFE))
    } else if is_valid_entry(e2) {
        proof {
            assert(t.entry_ok(0, e2));
            lemma_target_addr(*t, e2);
            assert(0 <= t.link_target(e2) < t.tables@.len()) by {
                assert(t.table_addr(t.link_target(e2)) == entry_addr(e2));
            };
        }
        let nt = t.tables.len();
        let i1q = (entry_addr_of(e2) - t.base) / 4096;
        proof {
            assert(nt == t.tables@.len());
            assert(i1q == t.link_target(e2));
            assert(i1q < nt as u64);
        }
        let i1 = i1q as usize;
        proof {
            assert(i1 as int == t.link_target(e2));
            assert(t.table_ok(i1 as int));
        }
        let e1 = t.tables[i1][vpn1_of(va) as usize];
        if is_leaf_entry(e1) {
            proof {
                lemma_entry_addr_bound(e1);
            }
            Some((entry_addr_of(e1) + va % L1_PAGE_SIZE, e1 & 0xFFE))
        } else if is_valid_entry(e1) {
            proof {
                assert(t.entry_ok(i1 as int, e1));
                lemma_target_addr(*t, e1);
                assert(0 <= t.link_target(e1) < t.tables@.len()) by {
                    assert(t.table_addr(t.link_target(e1)) == entry_addr(e1));
                };
            }
            let nt0 = t.tables.len();
            let i0q = (entry_addr_of(e1) - t.base) / 4096;
            proof {
                assert(nt0 == t.tables@.len());
                assert(i0q == t.link_target(e1));
                assert(i0q < nt0 as u64);
            }
            let i0 = i0q as usize;
            proof {
                assert(i0 as int == t.link_target(e1));
                assert(t.table_ok(i0 as int));
            }
            let e0 = t.tables[i0][vpn0_of(va) as usize];
            if is_leaf_entry(e0) {
                proof {
                    lemma_entry_addr_bound(e0);
                }
                Some((entry_addr_of(e0) + va % PAGE_SIZE, e0 & 0xFFE))
            } else {
                None
            }
        } else {
            None
        }
    } else {
        None
    }
}

/// Number of tables the arena holds, the root included.
pub fn table_count(t: &GuestPageTable) -> (n: usize)
    ensures
        n == t.tables@.len(),
{
    t.tables.len()
}

/// Number of leaf entries among the first `n` of a table.
pub open spec fn leaf_count_upto(s: Seq<u64>, n: int) -> int
    decreases n,
{
    if n <= 0 {
        0
    } else {
        leaf_count_upto(s, n - 1) + if entry_is_leaf(s[n - 1]) {
            1int
        } else {
            0
        }
    }
}

/// Number of leaf entries of a table.
pub open spec fn leaf_count(s: Seq<u64>) -> int {
    leaf_count_upto(s, s.len() as int)
}

/// A table whose leaves are exactly the window `[a, b)` has `b - a` of them.
proof fn lemma_leaf_count_window(s: Seq<u64>, a: int, b: int, n: int)
    requires
        0 <= a <= b <= n <= s.len(),
        forall|k: int| 0 <= k < n ==> (entry_is_leaf(#[trigger] s[k]) <==> a <= k < b),
    ensures
        leaf_count_upto(s, n) == b - a,
    decreases n,
{
    if n > 0 {
        if b == n && a < b {
            lemma_leaf_count_window(s, a, b - 1, n - 1);
        } else if b == n {
            lemma_leaf_count_window(s, n - 1, n - 1, n - 1);
        } else {
            lemma_leaf_count_window(s, a, b, n - 1);
        }
    }
}

/// Counts the leaf entries of the top-level table.
pub fn count_root_leaves(t: &GuestPageTable) -> (n: u64)
    requires
        t.wf(),
    ensures
        n == leaf_count(t.tbl(0)),
{
    proof {
        assert(t.table_ok(0));
    }
    let mut n: u64 = 0;
    let mut k: usize = 0;
    while k < ENTRY_COUNT
        invariant
            t.wf(),
            t.tbl(0).len() == ENTRY_COUNT,
            k <= ENTRY_COUNT,
            n == leaf_count_upto(t.tbl(0), k as int),
            n <= k,
        decreases ENTRY_COUNT - k,
    {
        let e = t.tables[0][k];
        if is_leaf_entry(e) {
            n = n + 1;
        }
        k = k + 1;
    }
    n
}

/// Greedy granularity law: a region whose start, physical base and length are
/// all aligned to the largest granularity, mapped into a fresh table, is
/// served by top-level leaves alone — exactly `size / 1 GiB` of them — and
/// allocates no intermediate table, so no leaf of a smaller granularity
/// exists anywhere.
pub proof fn lemma_greedy_largest_granularity(
    pre: GuestPageTable,
    post: GuestPageTable,
    vaddr: u64,
    paddr: u64,
    flags: u64,
    size: u64,
)
    requires
        pre.wf(),
        pre.tables@.len() == 1,
        forall|k: int| 0 <= k < ENTRY_COUNT ==> pre.tbl(0)[k] == 0,
        vaddr % L2_PAGE_SIZE == 0,
        paddr % L2_PAGE_SIZE == 0,
        size % L2_PAGE_SIZE == 0,
        size > 0,
        vaddr + size <= VA_LIMIT_3LVL,
        map_region_post(pre, post, vaddr, paddr, flags, size),
    ensures
        post.tables@.len() == 1,
        leaf_count(post.tbl(0)) == size / L2_PAGE_SIZE,
{
    lemma_zero_entry_invalid();
    assert(pre.table_ok(0));
    assert(post.table_ok(0));
    let a = vpn2(vaddr) as int;
    let q = (size / L2_PAGE_SIZE) as int;
    assert(size == L2_PAGE_SIZE * q) by {
        vstd::arithmetic::div_mod::lemma_fundamental_div_mod(size as int, L2_PAGE_SIZE as int);
    };
    assert(a + q <= 512) by {
        assert(((vaddr >> 30) & 0x1FFu64) + size / 0x4000_0000u64 <= 512) by (bit_vector)
            requires
                vaddr % 0x4000_0000u64 == 0,
                vaddr + size <= 0x80_0000_0000u64,
        ;
    };
    assert forall|k: int| 0 <= k < ENTRY_COUNT
        implies (entry_is_leaf(#[trigger] post.tbl(0)[k]) <==> a <= k < a + q) by {
        if a <= k < a + q {
            assert((k - a) * L2_PAGE_SIZE < size);
        } else {
            if 0 <= k < a {
                assert(post.tbl(0)[k] == pre.tbl(0)[k]);
            } else {
                assert((k - a) * L2_PAGE_SIZE >= size);
                assert(post.tbl(0)[k] == pre.tbl(0)[k]);
            }
        }
    };
    lemma_leaf_count_window(post.tbl(0), a, a + q, ENTRY_COUNT as int);
}

} // verus!
