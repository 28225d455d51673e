//! The Sv39 translation that a set of page tables defines, and how it
//! changes when single entries are written.
use vstd::prelude::*;

use crate::mmu::addr::{
    round_up, lemma_round_up, vpn, AddressRange, PageType, PhysicalAddr, VirtualAddr, HUGE_PAGE_SIZE, LARGE_PAGE_SIZE,
    SMALL_PAGE_SIZE,
};
use crate::mmu::pte::{leaf_flag_bits, permissions_error};
use crate::mmu::{range_check_error, MapError, PagePermissions, PageTableUpdate};
use crate::mmu::pte::{pte_flag_bits, pte_leaf, pte_points_to_table, pte_ppn, pte_valid};

verus! {

/// Lowest address of the upper canonical half of the Sv39 address space.
pub const UPPER_HALF_START: u64 = 0xFFFF_FFC0_0000_0000;

/// First address above the lower canonical half.
pub const LOWER_HALF_END: u64 = 0x40_0000_0000;

/// Sv39 translates only addresses whose bits 39..64 all equal bit 38.
pub open spec fn canonical(va: usize) -> bool {
    va < LOWER_HALF_END || va >= UPPER_HALF_START
}

/// Size in bytes of what one entry at `level` maps.
pub open spec fn level_size(level: int) -> int {
    if level == 0 {
        SMALL_PAGE_SIZE as int
    } else if level == 1 {
        LARGE_PAGE_SIZE as int
    } else {
        HUGE_PAGE_SIZE as int
    }
}

/// The level whose entries map pages of type `t`.
pub open spec fn page_level(t: PageType) -> int {
    match t {
        PageType::Small => 0,
        PageType::Large => 1,
        PageType::Huge => 2,
    }
}

/// The index of the table whose frame is at the address that entry `e` holds.
pub open spec fn table_index(phys: Seq<int>, e: u64) -> int {
    choose|j: int| 0 < j < phys.len() && phys[j] == pte_ppn(e) * 4096
}

/// Page tables as the walk sees them: the entries of each table and the
/// physical address of each table's frame. Table 0 is the root.
pub struct PtMem {
    pub tables: Seq<Seq<u64>>,
    pub phys: Seq<int>,
}

/// A translation: the physical address, the flag bits of the leaf entry, and
/// the level of the leaf entry, which says the size of the page.
pub type Translation = Option<(int, u64, int)>;

impl PtMem {
    pub open spec fn len(self) -> int {
        self.tables.len() as int
    }

    pub open spec fn entry(self, k: int, i: int) -> u64 {
        self.tables[k][i]
    }

    /// Table `j` (never the root) is the one that entry `e` points to.
    pub open spec fn is_table_of(self, j: int, e: u64) -> bool {
        0 < j < self.phys.len() && self.phys[j] == pte_ppn(e) * 4096
    }

    /// The table that a pointing entry refers to.
    pub open spec fn target(self, e: u64) -> int {
        table_index(self.phys, e)
    }

    /// Well-formed page tables: every pointing entry refers to a table other
    /// than the root, and no two entries refer to the same table.
    #[verifier::opaque]
    pub open spec fn wf(self) -> bool {
        &&& self.tables.len() == self.phys.len()
        &&& self.tables.len() >= 1
        &&& forall|k: int| 0 <= k < self.len() ==> (#[trigger] self.tables[k]).len() == 512
        &&& forall|k: int|
            0 <= k < self.len() ==> (#[trigger] self.phys[k]) >= 0 && self.phys[k] % 4096 == 0
        &&& forall|a: int, b: int|
            0 <= a < b < self.len() ==> #[trigger] self.phys[a] < #[trigger] self.phys[b]
        &&& forall|k: int, i: int|
            0 <= k < self.len() && 0 <= i < 512 && pte_points_to_table(#[trigger] self.entry(k, i))
                ==> exists|j: int| self.is_table_of(j, self.entry(k, i))
        &&& forall|k1: int, i1: int, k2: int, i2: int|
            0 <= k1 < self.len() && 0 <= i1 < 512 && 0 <= k2 < self.len() && 0 <= i2 < 512
                && pte_points_to_table(#[trigger] self.entry(k1, i1)) && pte_points_to_table(
                #[trigger] self.entry(k2, i2),
            ) && pte_ppn(self.entry(k1, i1)) == pte_ppn(self.entry(k2, i2)) ==> k1 == k2 && i1
                == i2
    }

    /// The root entry that the walk for `va` reads.
    pub open spec fn e2(self, va: usize) -> u64 {
        self.entry(0, vpn(va, 2) as int)
    }

    /// The level-1 table that the walk for `va` goes to, when `e2` points to one.
    pub open spec fn t1(self, va: usize) -> int {
        self.target(self.e2(va))
    }

    pub open spec fn e1(self, va: usize) -> u64 {
        self.entry(self.t1(va), vpn(va, 1) as int)
    }

    /// The level-0 table that the walk for `va` goes to, when `e1` points to one.
    pub open spec fn t0(self, va: usize) -> int {
        self.target(self.e1(va))
    }

    pub open spec fn e0(self, va: usize) -> u64 {
        self.entry(self.t0(va), vpn(va, 0) as int)
    }

    /// The slot (table, index) that the walk for `va` reads at `level`, if it gets there.
    pub open spec fn slot(self, va: usize, level: int) -> Option<(int, int)> {
        if level == 2 {
            Some((0, vpn(va, 2) as int))
        } else if level == 1 {
            if pte_points_to_table(self.e2(va)) {
                Some((self.t1(va), vpn(va, 1) as int))
            } else {
                None
            }
        } else if level == 0 {
            if pte_points_to_table(self.e2(va)) && pte_points_to_table(self.e1(va)) {
                Some((self.t0(va), vpn(va, 0) as int))
            } else {
                None
            }
        } else {
            None
        }
    }

    /// The walk for `va` gets down to `level` through tables.
    #[verifier::opaque]
    pub open spec fn reaches(self, va: usize, level: int) -> bool {
        self.slot(va, level) is Some
    }

    /// The slot that a page of `va` at `level` would go into is in use: an entry
    /// on the way there maps a larger page, or the slot itself is used.
    pub open spec fn page_taken(self, va: usize, level: int) -> bool {
        let e2 = self.e2(va);
        let e1 = self.e1(va);
        let e0 = self.e0(va);
        if level >= 2 {
            pte_valid(e2)
        } else if level == 1 {
            pte_valid(e2) && (pte_leaf(e2) || pte_valid(e1))
        } else {
            pte_valid(e2) && (pte_leaf(e2) || (pte_valid(e1) && (pte_leaf(e1) || pte_valid(e0))))
        }
    }

    /// What a leaf entry at `level` gives for `va`.
    pub open spec fn leaf_result(e: u64, va: usize, level: int) -> Translation {
        let size = level_size(level);
        let base = pte_ppn(e) * 4096;
        if base % size != 0 {
            None
        } else {
            Some((base + (va as int) % size, pte_flag_bits(e), level))
        }
    }

    /// The physical address and flags that the hardware translation of `va`
    /// yields, and the level of the leaf entry it ends at.
    #[verifier::opaque]
    pub open spec fn translate(self, va: usize) -> Translation {
        let e2 = self.e2(va);
        let e1 = self.e1(va);
        let e0 = self.e0(va);
        if !canonical(va) || !pte_valid(e2) {
            None
        } else if pte_leaf(e2) {
            Self::leaf_result(e2, va, 2)
        } else if !pte_valid(e1) {
            None
        } else if pte_leaf(e1) {
            Self::leaf_result(e1, va, 1)
        } else if pte_valid(e0) && pte_leaf(e0) {
            Self::leaf_result(e0, va, 0)
        } else {
            None
        }
    }

    /// The tables with entry `i` of table `k` replaced by `v`.
    pub open spec fn set_entry(self, k: int, i: int, v: u64) -> PtMem {
        PtMem { tables: self.tables.update(k, self.tables[k].update(i, v)), phys: self.phys }
    }

    /// The tables with one more, empty, table whose frame is at `p`.
    pub open spec fn push_table(self, p: int) -> PtMem {
        PtMem { tables: self.tables.push(Seq::new(512, |i: int| 0u64)), phys: self.phys.push(p) }
    }

    /// `p` is above every table frame and page aligned.
    pub open spec fn fresh_frame(self, p: int) -> bool {
        &&& p >= 0
        &&& p % 4096 == 0
        &&& forall|j: int| 0 <= j < self.len() ==> #[trigger] self.phys[j] < p
    }

    /// The shape facts that well-formed tables have.
    pub proof fn lemma_wf_shape(self)
        requires
            self.wf(),
        ensures
            self.tables.len() == self.phys.len(),
            self.tables.len() >= 1,
            forall|k: int| 0 <= k < self.len() ==> (#[trigger] self.tables[k]).len() == 512,
            forall|k: int|
                0 <= k < self.len() ==> (#[trigger] self.phys[k]) >= 0 && self.phys[k] % 4096 == 0,
            forall|a: int, b: int|
                0 <= a < b < self.len() ==> #[trigger] self.phys[a] < #[trigger] self.phys[b],
    {
        reveal(PtMem::wf);
    }

    pub proof fn lemma_target(self, k: int, i: int)
        requires
            self.wf(),
            0 <= k < self.len(),
            0 <= i < 512,
            pte_points_to_table(self.entry(k, i)),
        ensures
            self.is_table_of(self.target(self.entry(k, i)), self.entry(k, i)),
            forall|j: int| self.is_table_of(j, self.entry(k, i)) ==> j == self.target(self.entry(k, i)),
    {
        reveal(PtMem::wf);
        reveal(PtMem::translate);
        let e = self.entry(k, i);
        let t = self.target(e);
        assert(self.is_table_of(t, e));
        assert forall|j: int| self.is_table_of(j, e) implies j == t by {
            if j < t {
                assert(self.phys[j] < self.phys[t]);
            } else if t < j {
                assert(self.phys[t] < self.phys[j]);
            }
        }
    }

    /// Every slot the walk reaches lies within the tables.
    pub proof fn lemma_slot_in_bounds(self, va: usize)
        requires
            self.wf(),
        ensures
            forall|level: int|
                0 <= level <= 2 ==> (#[trigger] self.slot(va, level) matches Some((t, i)) ==> {
                    &&& 0 <= t < self.len()
                    &&& 0 <= i < 512
                    &&& i == vpn(va, level)
                    &&& level < 2 ==> t > 0
                }),
    {
        reveal(PtMem::wf);
        reveal(PtMem::translate);
        assert(vpn(va, 2) < 512 && vpn(va, 1) < 512 && vpn(va, 0) < 512);
        if pte_points_to_table(self.e2(va)) {
            self.lemma_target(0, vpn(va, 2) as int);
            if pte_points_to_table(self.e1(va)) {
                self.lemma_target(self.t1(va), vpn(va, 1) as int);
            }
        }
    }

    /// Two walks that read the same slot read it at the same level and
    /// agree on all table indices from that level up.
    pub proof fn lemma_slot_unique(self, va1: usize, l1: int, va2: usize, l2: int)
        requires
            self.wf(),
            0 <= l1 <= 2,
            0 <= l2 <= 2,
            self.slot(va1, l1) is Some,
            self.slot(va1, l1) == self.slot(va2, l2),
        ensures
            l1 == l2,
            forall|l: int| l1 <= l <= 2 ==> vpn(va1, l) == vpn(va2, l),
    {
        reveal(PtMem::wf);
        reveal(PtMem::translate);
        self.lemma_slot_in_bounds(va1);
        self.lemma_slot_in_bounds(va2);
        assert(vpn(va1, 2) < 512 && vpn(va2, 2) < 512 && vpn(va1, 1) < 512 && vpn(va2, 1) < 512);
        if pte_points_to_table(self.e2(va1)) {
            self.lemma_target(0, vpn(va1, 2) as int);
        }
        if pte_points_to_table(self.e2(va2)) {
            self.lemma_target(0, vpn(va2, 2) as int);
        }
        if pte_points_to_table(self.e2(va1)) && pte_points_to_table(self.e1(va1)) {
            self.lemma_target(self.t1(va1), vpn(va1, 1) as int);
        }
        if pte_points_to_table(self.e2(va2)) && pte_points_to_table(self.e1(va2)) {
            self.lemma_target(self.t1(va2), vpn(va2, 1) as int);
        }
    }
}

impl PtMem {
    /// Writing a slot that the walk for `va` does not read leaves its translation alone.
    pub proof fn lemma_set_unread(self, k: int, i: int, v: u64, va: usize)
        requires
            self.wf(),
            0 <= k < self.len(),
            0 <= i < 512,
            forall|l: int| 0 <= l <= 2 ==> self.slot(va, l) != Some((k, i)),
        ensures
            self.set_entry(k, i, v).translate(va) == self.translate(va),
            forall|l: int| 0 <= l <= 2 ==> self.set_entry(k, i, v).slot(va, l) == self.slot(va, l),
    {
        reveal(PtMem::wf);
        reveal(PtMem::translate);
        let m2 = self.set_entry(k, i, v);
        self.lemma_slot_in_bounds(va);
        assert(self.slot(va, 2) != Some((k, i)));
        assert(m2.e2(va) == self.e2(va));
        if pte_points_to_table(self.e2(va)) {
            assert(self.slot(va, 1) != Some((k, i)));
            assert(m2.t1(va) == self.t1(va));
            assert(m2.e1(va) == self.e1(va));
            if pte_points_to_table(self.e1(va)) {
                assert(self.slot(va, 0) != Some((k, i)));
                assert(m2.e0(va) == self.e0(va));
            }
        }
    }

    /// Writing a leaf entry into an unused slot that the walk for `va` reads at
    /// `level` maps the whole page of `va` at that level, and nothing else.
    pub proof fn lemma_set_leaf(self, k: int, i: int, v: u64, va: usize, level: int)
        requires
            self.wf(),
            0 <= level <= 2,
            self.slot(va, level) == Some((k, i)),
            !pte_valid(self.entry(k, i)),
            pte_valid(v),
            pte_leaf(v),
            canonical(va),
            (pte_ppn(v) * 4096) % level_size(level) == 0,
        ensures
            self.set_entry(k, i, v).wf(),
            forall|va2: usize| #[trigger]
                self.set_entry(k, i, v).translate(va2) == if (va2 as int) / level_size(level) == (
                va as int) / level_size(level) {
                    Some((pte_ppn(v) * 4096 + (va2 as int) % level_size(level), pte_flag_bits(v), level))
                } else {
                    self.translate(va2)
                },
    {
        reveal(PtMem::wf);
        reveal(PtMem::translate);
        let m2 = self.set_entry(k, i, v);
        self.lemma_slot_in_bounds(va);
        assert(m2.wf()) by {
            assert forall|k1: int, i1: int|
                0 <= k1 < m2.len() && 0 <= i1 < 512 && pte_points_to_table(
                    #[trigger] m2.entry(k1, i1),
                ) implies exists|j: int| m2.is_table_of(j, m2.entry(k1, i1)) by {
                assert(m2.entry(k1, i1) == self.entry(k1, i1));
                let j = choose|j: int| self.is_table_of(j, self.entry(k1, i1));
                assert(m2.is_table_of(j, m2.entry(k1, i1)));
            }
            assert forall|k1: int, i1: int, k2: int, i2: int|
                0 <= k1 < m2.len() && 0 <= i1 < 512 && 0 <= k2 < m2.len() && 0 <= i2 < 512
                    && pte_points_to_table(#[trigger] m2.entry(k1, i1)) && pte_points_to_table(
                    #[trigger] m2.entry(k2, i2),
                ) && pte_ppn(m2.entry(k1, i1)) == pte_ppn(m2.entry(k2, i2)) implies k1 == k2 && i1
                == i2 by {
                assert(m2.entry(k1, i1) == self.entry(k1, i1));
                assert(m2.entry(k2, i2) == self.entry(k2, i2));
            }
        }
        let size = level_size(level);
        assert forall|va2: usize|
            #[trigger] m2.translate(va2) == if (va2 as int) / size == (va as int) / size {
                Some((pte_ppn(v) * 4096 + (va2 as int) % size, pte_flag_bits(v), level))
            } else {
                self.translate(va2)
            } by {
            self.lemma_slot_in_bounds(va2);
            if exists|l: int| 0 <= l <= 2 && self.slot(va2, l) == Some((k, i)) {
                let l = choose|l: int| 0 <= l <= 2 && self.slot(va2, l) == Some((k, i));
                self.lemma_slot_unique(va, level, va2, l);
                if canonical(va2) {
                    lemma_same_page(va, va2, level);
                    self.lemma_reads_at(k, i, v, va2, level);
                } else if (va2 as int) / size == (va as int) / size {
                    lemma_same_page_canonical(va, va2, level);
                }
            } else {
                self.lemma_set_unread(k, i, v, va2);
                if canonical(va2) && (va2 as int) / size == (va as int) / size {
                    lemma_same_page(va, va2, level);
                    assert(self.slot(va2, level) == self.slot(va, level));
                }
                if !canonical(va2) && (va2 as int) / size == (va as int) / size {
                    lemma_same_page_canonical(va, va2, level);
                }
            }
        }
    }

    /// The translation of `va`, when its walk reads the written leaf slot at `level`.
    proof fn lemma_reads_at(self, k: int, i: int, v: u64, va: usize, level: int)
        requires
            self.wf(),
            0 <= level <= 2,
            self.slot(va, level) == Some((k, i)),
            forall|l: int| 0 <= l <= 2 && l != level ==> self.slot(va, l) != Some((k, i)),
            !pte_valid(self.entry(k, i)),
            pte_valid(v),
            pte_leaf(v),
            canonical(va),
        ensures
            self.set_entry(k, i, v).translate(va) == PtMem::leaf_result(v, va, level),
    {
        reveal(PtMem::wf);
        reveal(PtMem::translate);
        let m2 = self.set_entry(k, i, v);
        assert(m2.phys == self.phys);
        self.lemma_slot_in_bounds(va);
        if level == 2 {
            assert(m2.e2(va) == v);
        } else if level == 1 {
            assert(m2.e2(va) == self.e2(va));
            assert(m2.t1(va) == self.t1(va));
            assert(m2.e1(va) == v);
        } else {
            assert(m2.e2(va) == self.e2(va));
            assert(m2.t1(va) == self.t1(va));
            assert(m2.e1(va) == self.e1(va));
            assert(m2.t0(va) == self.t0(va));
            assert(m2.e0(va) == v);
        }
    }

    /// Adding an empty table at a fresh frame and pointing an unused slot to it
    /// changes no translation.
    pub proof fn lemma_link_new_table(self, k: int, i: int, p: int, v: u64)
        requires
            self.wf(),
            0 <= k < self.len(),
            0 <= i < 512,
            !pte_valid(self.entry(k, i)),
            self.fresh_frame(p),
            pte_points_to_table(v),
            pte_ppn(v) * 4096 == p,
        ensures
            self.push_table(p).set_entry(k, i, v).wf(),
            self.push_table(p).set_entry(k, i, v).target(v) == self.len(),
            forall|e: u64|
                (exists|j: int| self.is_table_of(j, e)) ==> #[trigger] self.push_table(p).set_entry(
                    k,
                    i,
                    v,
                ).target(e) == self.target(e),
            forall|va: usize| #[trigger]
                self.push_table(p).set_entry(k, i, v).translate(va) == self.translate(va),
    {
        reveal(PtMem::wf);
        reveal(PtMem::translate);
        let m1 = self.push_table(p);
        let m2 = m1.set_entry(k, i, v);
        let n = self.len();
        assert(m2.phys == m1.phys);
        assert(m1.is_table_of(n, v));
        assert forall|j: int| m2.is_table_of(j, v) implies j == n by {
            if j < n {
                assert(self.phys[j] < p);
            }
        }
        assert(m2.is_table_of(n, v));
        assert(m2.is_table_of(m2.target(v), v));
        // pointing entries of the old tables keep their targets
        assert forall|e: u64| (exists|j: int| self.is_table_of(j, e)) implies m1.target(e)
            == self.target(e) && m2.target(e) == self.target(e) by {
            let t = self.target(e);
            assert(self.is_table_of(t, e));
            assert(m1.is_table_of(t, e));
            assert forall|j: int| m1.is_table_of(j, e) implies j == t by {
                if j == n {
                    assert(self.phys[t] < p);
                } else if j < t {
                    assert(self.phys[j] < self.phys[t]);
                } else if t < j {
                    assert(self.phys[t] < self.phys[j]);
                }
            }
            assert(m1.is_table_of(m1.target(e), e));
        }
        assert(m2.wf()) by {
            assert forall|k1: int| 0 <= k1 < m2.len() implies (#[trigger] m2.tables[k1]).len()
                == 512 by {
                if k1 < n {
                    assert(m2.tables[k1].len() == self.tables[k1].len());
                }
            }
            assert forall|k1: int|
                0 <= k1 < m2.len() implies (#[trigger] m2.phys[k1]) >= 0 && m2.phys[k1] % 4096
                == 0 by {
                if k1 < n {
                    assert(m2.phys[k1] == self.phys[k1]);
                }
            }
            assert forall|a: int, b: int| 0 <= a < b < m2.len() implies #[trigger] m2.phys[a]
                < #[trigger] m2.phys[b] by {
                if b == n {
                    assert(self.phys[a] < p);
                }
            }
            assert forall|k1: int, i1: int|
                0 <= k1 < m2.len() && 0 <= i1 < 512 && pte_points_to_table(
                    #[trigger] m2.entry(k1, i1),
                ) implies exists|j: int| m2.is_table_of(j, m2.entry(k1, i1)) by {
                if k1 == k && i1 == i {
                    assert(m2.is_table_of(n, v));
                } else if k1 == n {
                    assert(m2.entry(k1, i1) == 0);
                } else {
                    assert(m2.entry(k1, i1) == self.entry(k1, i1));
                    let j = choose|j: int| self.is_table_of(j, self.entry(k1, i1));
                    assert(m2.is_table_of(j, m2.entry(k1, i1)));
                }
            }
            assert forall|k1: int, i1: int, k2: int, i2: int|
                0 <= k1 < m2.len() && 0 <= i1 < 512 && 0 <= k2 < m2.len() && 0 <= i2 < 512
                    && pte_points_to_table(#[trigger] m2.entry(k1, i1)) && pte_points_to_table(
                    #[trigger] m2.entry(k2, i2),
                ) && pte_ppn(m2.entry(k1, i1)) == pte_ppn(m2.entry(k2, i2)) implies k1 == k2 && i1
                == i2 by {
                let new1 = k1 == k && i1 == i;
                let new2 = k2 == k && i2 == i;
                if k1 == n {
                    assert(m2.entry(k1, i1) == 0);
                } else if k2 == n {
                    assert(m2.entry(k2, i2) == 0);
                } else if new1 && !new2 {
                    assert(m2.entry(k2, i2) == self.entry(k2, i2));
                    let j = choose|j: int| self.is_table_of(j, self.entry(k2, i2));
                    assert(self.phys[j] < p);
                } else if new2 && !new1 {
                    assert(m2.entry(k1, i1) == self.entry(k1, i1));
                    let j = choose|j: int| self.is_table_of(j, self.entry(k1, i1));
                    assert(self.phys[j] < p);
                } else if !new1 && !new2 {
                    assert(m2.entry(k1, i1) == self.entry(k1, i1));
                    assert(m2.entry(k2, i2) == self.entry(k2, i2));
                }
            }
        }
        assert forall|va: usize| #[trigger] m2.translate(va) == self.translate(va) by {
            self.lemma_slot_in_bounds(va);
            let e2 = self.e2(va);
            if !canonical(va) {
            } else if self.slot(va, 2) == Some((k, i)) {
                assert(m2.e2(va) == v);
                assert(m2.t1(va) == n);
                assert(m2.e1(va) == 0);
            } else {
                assert(m2.e2(va) == e2);
                if pte_points_to_table(e2) {
                    self.lemma_target(0, vpn(va, 2) as int);
                    assert(m2.t1(va) == self.t1(va));
                    if self.slot(va, 1) == Some((k, i)) {
                        assert(m2.e1(va) == v);
                        assert(m2.t0(va) == n);
                        assert(m2.e0(va) == 0);
                    } else {
                        assert(m2.e1(va) == self.e1(va));
                        if pte_points_to_table(self.e1(va)) {
                            self.lemma_target(self.t1(va), vpn(va, 1) as int);
                            assert(m2.t0(va) == self.t0(va));
                            if self.slot(va, 0) == Some((k, i)) {
                                assert(m2.e0(va) == v);
                            } else {
                                assert(m2.e0(va) == self.e0(va));
                            }
                        }
                    }
                }
            }
        }
    }
}

impl PtMem {
    /// A walk that reaches an unused slot translates nothing.
    pub proof fn lemma_unused_slot(self, va: usize, level: int)
        requires
            0 <= level <= 2,
            self.slot(va, level) matches Some((k, i)) && !pte_valid(self.entry(k, i)),
        ensures
            self.translate(va) is None,
    {
        reveal(PtMem::wf);
        reveal(PtMem::translate);
    }

    /// Both have the same tables and the same pointing entries.
    pub open spec fn same_directories(self, other: PtMem) -> bool {
        &&& self.phys == other.phys
        &&& self.tables.len() == other.tables.len()
        &&& forall|k: int, i: int|
            0 <= k < self.len() && 0 <= i < 512 ==> (pte_points_to_table(#[trigger] self.entry(k, i))
                || pte_points_to_table(#[trigger] other.entry(k, i))) ==> self.entry(k, i)
                == other.entry(k, i)
    }
}

impl PtMem {
    /// Writing a leaf for the page of `va` at `level` into its unused slot: the
    /// page was unmapped before and maps to `pa` onwards after, and nothing else changes.
    pub proof fn lemma_map_leaf(self, k: int, i: int, v: u64, va: usize, level: int, pa: int)
        requires
            self.wf(),
            0 <= level <= 2,
            self.slot(va, level) == Some((k, i)),
            !pte_valid(self.entry(k, i)),
            pte_valid(v),
            pte_leaf(v),
            pte_ppn(v) * 4096 == pa,
            pa % level_size(level) == 0,
        ensures
            self.set_entry(k, i, v).wf(),
            self.set_entry(k, i, v).same_directories(self),
            canonical(va) ==> forall|va2: usize|
                (va2 as int) / level_size(level) == (va as int) / level_size(level) ==> (
                #[trigger] self.translate(va2)) is None,
            canonical(va) ==> forall|va2: usize| #[trigger]
                self.set_entry(k, i, v).translate(va2) == if (va2 as int) / level_size(level) == (
                va as int) / level_size(level) {
                    Some((pa + (va2 as int) % level_size(level), pte_flag_bits(v), level))
                } else {
                    self.translate(va2)
                },
    {
        reveal(PtMem::wf);
        reveal(PtMem::translate);
        let m2 = self.set_entry(k, i, v);
        let size = level_size(level);
        self.lemma_slot_in_bounds(va);
        if canonical(va) {
            self.lemma_set_leaf(k, i, v, va, level);
            assert forall|va2: usize| (va2 as int) / size == (va as int) / size implies (
            #[trigger] self.translate(va2)) is None by {
                self.lemma_slot_in_bounds(va2);
                lemma_same_page_canonical(va, va2, level);
                lemma_same_page(va, va2, level);
                assert(self.slot(va2, level) == self.slot(va, level));
                self.lemma_unused_slot(va2, level);
            }
        } else {
            self.lemma_set_leaf_wf(k, i, v);
        }
        assert forall|k1: int, i1: int|
            0 <= k1 < m2.len() && 0 <= i1 < 512 && (pte_points_to_table(
                #[trigger] m2.entry(k1, i1),
            ) || pte_points_to_table(#[trigger] self.entry(k1, i1))) implies m2.entry(k1, i1)
            == self.entry(k1, i1) by {}
    }

    /// Writing a non-pointing entry over a non-pointing one keeps the tables well formed.
    pub proof fn lemma_set_leaf_wf(self, k: int, i: int, v: u64)
        requires
            self.wf(),
            0 <= k < self.len(),
            0 <= i < 512,
            !pte_points_to_table(self.entry(k, i)),
            !pte_points_to_table(v),
        ensures
            self.set_entry(k, i, v).wf(),
    {
        reveal(PtMem::wf);
        reveal(PtMem::translate);
        let m2 = self.set_entry(k, i, v);
        assert forall|k1: int, i1: int|
            0 <= k1 < m2.len() && 0 <= i1 < 512 && pte_points_to_table(
                #[trigger] m2.entry(k1, i1),
            ) implies exists|j: int| m2.is_table_of(j, m2.entry(k1, i1)) by {
            assert(m2.entry(k1, i1) == self.entry(k1, i1));
            let j = choose|j: int| self.is_table_of(j, self.entry(k1, i1));
            assert(m2.is_table_of(j, m2.entry(k1, i1)));
        }
        assert forall|k1: int, i1: int, k2: int, i2: int|
            0 <= k1 < m2.len() && 0 <= i1 < 512 && 0 <= k2 < m2.len() && 0 <= i2 < 512
                && pte_points_to_table(#[trigger] m2.entry(k1, i1)) && pte_points_to_table(
                #[trigger] m2.entry(k2, i2),
            ) && pte_ppn(m2.entry(k1, i1)) == pte_ppn(m2.entry(k2, i2)) implies k1 == k2 && i1
            == i2 by {
            assert(m2.entry(k1, i1) == self.entry(k1, i1));
            assert(m2.entry(k2, i2) == self.entry(k2, i2));
        }
    }
}

/// A page of `size` bytes that starts at `base` holds exactly the addresses
/// `base..base + size`, at offsets `va - base`.
pub proof fn lemma_page_of(va: int, base: int, size: int)
    requires
        size > 0,
        base >= 0,
        va >= 0,
        base % size == 0,
    ensures
        va / size == base / size <==> base <= va < base + size,
        base <= va < base + size ==> va % size == va - base,
{
    let q = base / size;
    vstd::arithmetic::div_mod::lemma_fundamental_div_mod(va, size);
    vstd::arithmetic::div_mod::lemma_fundamental_div_mod(base, size);
    vstd::arithmetic::div_mod::lemma_mod_bound(va, size);
    assert(base == size * q);
    if base <= va < base + size {
        vstd::arithmetic::div_mod::lemma_fundamental_div_mod_converse(va, size, q, va - base);
    }
    if va / size == q {
        assert(va == size * q + va % size);
    }
}

/// Every address of the range is canonical.
pub open spec fn range_canonical(r: AddressRange<VirtualAddr>) -> bool {
    r.start@ >= r.end@ || r.end@ <= LOWER_HALF_END || r.start@ >= UPPER_HALF_START
}

/// What mapping `virtual_range` onto `physical_range` with `permissions`
/// makes `va` translate to: its physical address, the flags of the
/// permissions, and the level of the page that the range's tiling puts it in.
pub open spec fn range_target(
    virtual_range: AddressRange<VirtualAddr>,
    physical_range: AddressRange<PhysicalAddr>,
    permissions: PagePermissions,
    va: usize,
) -> Translation {
    Some(
        (
            physical_range.start@ + (va - virtual_range.start@),
            leaf_flag_bits(permissions),
            range_page_level(virtual_range, physical_range, va),
        ),
    )
}

/// The same as `range_target`, where the range is tiled from the largest page
/// size down.
pub open spec fn descending_target(
    virtual_range: AddressRange<VirtualAddr>,
    physical_range: AddressRange<PhysicalAddr>,
    permissions: PagePermissions,
    va: usize,
) -> Translation {
    Some(
        (
            physical_range.start@ + (va - virtual_range.start@),
            leaf_flag_bits(permissions),
            descending_level(virtual_range, physical_range, va),
        ),
    )
}

/// One of the three page sizes.
pub open spec fn is_page_size(n: int) -> bool {
    n == SMALL_PAGE_SIZE || n == LARGE_PAGE_SIZE || n == HUGE_PAGE_SIZE
}

/// What mapping `virtual_range` onto `physical_range` with `permissions` did to
/// the tables `before`, leaving `after`, when it returned `r`.
///
/// The range checks decide the error exactly. Past them, bad permissions always
/// fail a non-empty range; an error may leave a prefix of the range mapped;
/// success maps the whole range, which was unmapped before, and nothing else;
/// and the update names a single page only when the range is that page and no
/// table entry pointing to a table changed.
pub open spec fn map_outcome(
    before: PtMem,
    after: PtMem,
    virtual_range: AddressRange<VirtualAddr>,
    physical_range: AddressRange<PhysicalAddr>,
    permissions: PagePermissions,
    r: Result<PageTableUpdate, MapError>,
) -> bool {
    map_outcome_with(
        before,
        after,
        virtual_range,
        physical_range,
        permissions,
        r,
        |va: usize| range_target(virtual_range, physical_range, permissions, va),
    )
}

/// `map_outcome`, where the range is tiled from the largest page size down.
pub open spec fn descending_outcome(
    before: PtMem,
    after: PtMem,
    virtual_range: AddressRange<VirtualAddr>,
    physical_range: AddressRange<PhysicalAddr>,
    permissions: PagePermissions,
    r: Result<PageTableUpdate, MapError>,
) -> bool {
    map_outcome_with(
        before,
        after,
        virtual_range,
        physical_range,
        permissions,
        r,
        |va: usize| descending_target(virtual_range, physical_range, permissions, va),
    )
}

/// `map_outcome`, where `target` says what each address of the range
/// translates to once mapped.
pub open spec fn map_outcome_with(
    before: PtMem,
    after: PtMem,
    virtual_range: AddressRange<VirtualAddr>,
    physical_range: AddressRange<PhysicalAddr>,
    permissions: PagePermissions,
    r: Result<PageTableUpdate, MapError>,
    target: spec_fn(usize) -> Translation,
) -> bool {
    &&& range_check_error(virtual_range, physical_range) matches Some(e) ==> r == Err::<
        PageTableUpdate,
        MapError,
    >(e) && after == before
    &&& range_check_error(virtual_range, physical_range) is None ==> {
        &&& permissions_error(permissions) is Some && virtual_range.len() > 0 ==> r is Err
        &&& match r {
            Ok(u) => {
                &&& (u == PageTableUpdate::Unchanged <==> virtual_range.len() == 0)
                &&& u matches PageTableUpdate::One(p) ==> {
                    &&& p == virtual_range.start
                    &&& is_page_size(virtual_range.len() as int)
                    &&& after.same_directories(before)
                }
                &&& range_canonical(virtual_range) ==> forall|va: usize|
                    virtual_range.start@ <= va < virtual_range.end@ ==> (
                    #[trigger] before.translate(va)) is None
                &&& range_canonical(virtual_range) ==> forall|va: usize| #[trigger]
                    after.translate(va) == if virtual_range.start@ <= va < virtual_range.end@ {
                        target(va)
                    } else {
                        before.translate(va)
                    }
            },
            Err(e) => {
                &&& match e {
                    MapError::Conflict(c) => {
                        &&& virtual_range.start@ <= c.start@
                        &&& c.end@ <= virtual_range.end@
                        &&& exists|l: int|
                            0 <= l <= 2 && c.end@ == c.start@ + level_size(l) && after.page_taken(
                                c.start@,
                                l,
                            )
                    },
                    MapError::InvalidPermissions(p) => permissions_error(permissions) == Some(p),
                    MapError::TableSpaceExhausted => true,
                    _ => false,
                }
                &&& range_canonical(virtual_range) ==> forall|va: usize| #[trigger]
                    after.translate(va) == before.translate(va) || (virtual_range.start@ <= va
                        < virtual_range.end@ && after.translate(va) == target(va))
            },
        }
    }
}

impl PtMem {
    /// A single empty root table at an aligned frame is well formed.
    pub proof fn lemma_single_table_wf(m: PtMem)
        requires
            m.tables == seq![Seq::new(512, |i: int| 0u64)],
            m.phys.len() == 1,
            m.phys[0] >= 0,
            m.phys[0] % 4096 == 0,
        ensures
            m.wf(),
    {
        reveal(PtMem::wf);
        assert forall|k: int, i: int| 0 <= k < m.len() && 0 <= i < 512 implies #[trigger] m.entry(k, i) == 0 by {
            assert(k == 0);
        }
    }

    /// Tables whose root is empty hold no page at any level.
    pub proof fn lemma_empty_root_free(m: PtMem, va: usize, level: int)
        requires
            m.tables.len() >= 1,
            m.tables[0] == Seq::new(512, |i: int| 0u64),
        ensures
            !m.page_taken(va, level),
    {
        reveal(PtMem::translate);
        assert(vpn(va, 2) < 512);
        assert(m.e2(va) == 0);
        PtMem::lemma_empty_root(m, va);
    }

    /// Tables whose root is empty translate nothing.
    pub proof fn lemma_empty_root(m: PtMem, va: usize)
        requires
            m.tables.len() >= 1,
            m.tables[0] == Seq::new(512, |i: int| 0u64),
        ensures
            m.translate(va) is None,
    {
        reveal(PtMem::translate);
        assert(vpn(va, 2) < 512);
        assert(m.e2(va) == 0);
    }
}

impl PtMem {
    /// Writing a slot that the walk for `va` does not read leaves it as it was.
    pub proof fn lemma_set_unread_taken(self, k: int, i: int, v: u64, va: usize)
        requires
            self.wf(),
            0 <= k < self.len(),
            0 <= i < 512,
            forall|l: int| 0 <= l <= 2 ==> self.slot(va, l) != Some((k, i)),
        ensures
            forall|l: int| #[trigger]
                self.set_entry(k, i, v).page_taken(va, l) == self.page_taken(va, l),
    {
        reveal(PtMem::wf);
        reveal(PtMem::translate);
        let m2 = self.set_entry(k, i, v);
        self.lemma_slot_in_bounds(va);
        assert(self.slot(va, 2) != Some((k, i)));
        assert(m2.e2(va) == self.e2(va));
        if pte_points_to_table(self.e2(va)) {
            assert(self.slot(va, 1) != Some((k, i)));
            assert(m2.t1(va) == self.t1(va));
            assert(m2.e1(va) == self.e1(va));
            if pte_points_to_table(self.e1(va)) {
                assert(self.slot(va, 0) != Some((k, i)));
                assert(m2.e0(va) == self.e0(va));
            }
        }
    }

    /// Writing a leaf for the page of a canonical `va` leaves every other
    /// canonical page as taken or free as it was.
    pub proof fn lemma_set_leaf_taken(self, k: int, i: int, v: u64, va: usize, level: int)
        requires
            self.wf(),
            0 <= level <= 2,
            self.slot(va, level) == Some((k, i)),
            canonical(va),
        ensures
            forall|va2: usize, l2: int|
                canonical(va2) && (va2 as int) / level_size(level) != (va as int) / level_size(level)
                    ==> #[trigger] self.set_entry(k, i, v).page_taken(va2, l2) == self.page_taken(va2, l2),
    {
        reveal(PtMem::wf);
        reveal(PtMem::translate);
        self.lemma_slot_in_bounds(va);
        assert forall|va2: usize, l2: int|
            canonical(va2) && (va2 as int) / level_size(level) != (va as int) / level_size(level)
                implies #[trigger] self.set_entry(k, i, v).page_taken(va2, l2) == self.page_taken(
                va2,
                l2,
            ) by {
            if exists|l: int| 0 <= l <= 2 && self.slot(va2, l) == Some((k, i)) {
                let l = choose|l: int| 0 <= l <= 2 && self.slot(va2, l) == Some((k, i));
                self.lemma_slot_unique(va, level, va2, l);
                lemma_same_page(va, va2, level);
            } else {
                self.lemma_set_unread_taken(k, i, v, va2);
            }
        }
    }

    /// Linking a new, empty table into an unused slot leaves every page free
    /// that the walk reaches only below that slot's level, and all others as they were.
    pub proof fn lemma_link_taken(self, k: int, i: int, p: int, v: u64, level: int)
        requires
            self.wf(),
            0 <= k < self.len(),
            0 <= i < 512,
            !pte_valid(self.entry(k, i)),
            self.fresh_frame(p),
            pte_points_to_table(v),
            pte_ppn(v) * 4096 == p,
        ensures
            forall|va2: usize, l2: int|
                0 <= l2 && (forall|l: int| 0 <= l <= 2 && self.slot(va2, l) == Some((k, i)) ==> l > l2)
                    ==> #[trigger] self.push_table(p).set_entry(k, i, v).page_taken(va2, l2)
                    == self.page_taken(va2, l2),
    {
        reveal(PtMem::wf);
        reveal(PtMem::translate);
        let m1 = self.push_table(p);
        let m2 = m1.set_entry(k, i, v);
        let n = self.len();
        self.lemma_link_new_table(k, i, p, v);
        assert forall|va2: usize, l2: int|
            0 <= l2 && (forall|l: int| 0 <= l <= 2 && self.slot(va2, l) == Some((k, i)) ==> l > l2)
                implies #[trigger] m2.page_taken(va2, l2) == self.page_taken(va2, l2) by {
            self.lemma_slot_in_bounds(va2);
            let e2 = self.e2(va2);
            if self.slot(va2, 2) == Some((k, i)) {
                assert(m2.e2(va2) == v);
                assert(m2.t1(va2) == n);
                assert(m2.e1(va2) == 0);
            } else {
                assert(m2.e2(va2) == e2);
                if pte_points_to_table(e2) {
                    self.lemma_target(0, vpn(va2, 2) as int);
                    assert(m2.t1(va2) == self.t1(va2));
                    if self.slot(va2, 1) == Some((k, i)) {
                        assert(m2.e1(va2) == v);
                        assert(m2.t0(va2) == n);
                        assert(m2.e0(va2) == 0);
                    } else {
                        assert(m2.e1(va2) == self.e1(va2));
                        if pte_points_to_table(self.e1(va2)) {
                            self.lemma_target(self.t1(va2), vpn(va2, 1) as int);
                            assert(m2.t0(va2) == self.t0(va2));
                            if self.slot(va2, 0) != Some((k, i)) {
                                assert(m2.e0(va2) == self.e0(va2));
                            }
                        }
                    }
                }
            }
        }
    }
}

impl PtMem {
    /// Linking a new table into the unused slot that the walk for `va` reads at
    /// `level` leaves every page below that level as taken or free as it was.
    pub proof fn lemma_link_taken_below(self, k: int, i: int, p: int, v: u64, va: usize, level: int)
        requires
            self.wf(),
            0 <= level <= 2,
            self.slot(va, level) == Some((k, i)),
            !pte_valid(self.entry(k, i)),
            self.fresh_frame(p),
            pte_points_to_table(v),
            pte_ppn(v) * 4096 == p,
        ensures
            forall|va2: usize, l2: int|
                0 <= l2 < level ==> #[trigger] self.push_table(p).set_entry(k, i, v).page_taken(
                    va2,
                    l2,
                ) == self.page_taken(va2, l2),
    {
        self.lemma_slot_in_bounds(va);
        self.lemma_link_taken(k, i, p, v, level);
        assert forall|va2: usize, l2: int| 0 <= l2 < level implies #[trigger] self.push_table(
            p,
        ).set_entry(k, i, v).page_taken(va2, l2) == self.page_taken(va2, l2) by {
            assert forall|l: int| 0 <= l <= 2 && self.slot(va2, l) == Some((k, i)) implies l > l2 by {
                self.lemma_slot_unique(va, level, va2, l);
            }
        }
    }
}

impl PtMem {
    /// Linking a new table into the slot that the walk for a canonical `va`
    /// reads at `level` leaves every canonical page as taken or free as it was,
    /// unless it lies in the same page of its own size as `va`.
    pub proof fn lemma_link_taken_elsewhere(
        self,
        k: int,
        i: int,
        p: int,
        v: u64,
        va: usize,
        level: int,
    )
        requires
            self.wf(),
            0 <= level <= 2,
            self.slot(va, level) == Some((k, i)),
            !pte_valid(self.entry(k, i)),
            self.fresh_frame(p),
            pte_points_to_table(v),
            pte_ppn(v) * 4096 == p,
            canonical(va),
        ensures
            forall|va2: usize, l2: int|
                canonical(va2) && 0 <= l2 <= 2 && (va2 as int) / level_size(l2) != (va as int)
                    / level_size(l2) ==> #[trigger] self.push_table(p).set_entry(k, i, v).page_taken(
                    va2,
                    l2,
                ) == self.page_taken(va2, l2),
    {
        self.lemma_slot_in_bounds(va);
        self.lemma_link_taken(k, i, p, v, level);
        assert forall|va2: usize, l2: int|
            canonical(va2) && 0 <= l2 <= 2 && (va2 as int) / level_size(l2) != (va as int)
                / level_size(l2) implies #[trigger] self.push_table(p).set_entry(k, i, v).page_taken(
                va2,
                l2,
            ) == self.page_taken(va2, l2) by {
            assert forall|l: int| 0 <= l <= 2 && self.slot(va2, l) == Some((k, i)) implies l > l2 by {
                self.lemma_slot_unique(va, level, va2, l);
                if l <= l2 {
                    lemma_same_page(va, va2, l2);
                }
            }
        }
    }
}

impl PtMem {
    /// Linking a new table into an unused slot keeps every slot that a walk
    /// reaches where it is.
    pub proof fn lemma_link_keeps_slots(self, k: int, i: int, p: int, v: u64, va: usize)
        requires
            self.wf(),
            0 <= k < self.len(),
            0 <= i < 512,
            !pte_valid(self.entry(k, i)),
            self.fresh_frame(p),
            pte_points_to_table(v),
            pte_ppn(v) * 4096 == p,
        ensures
            forall|l: int|
                #![trigger self.push_table(p).set_entry(k, i, v).slot(va, l)]
                0 <= l <= 2 && self.slot(va, l) is Some ==> self.push_table(p).set_entry(
                    k,
                    i,
                    v,
                ).slot(va, l) == self.slot(va, l),
    {
        reveal(PtMem::wf);
        let m1 = self.push_table(p);
        let m2 = m1.set_entry(k, i, v);
        self.lemma_link_new_table(k, i, p, v);
        self.lemma_slot_in_bounds(va);
        assert(vpn(va, 2) < 512);
        if pte_points_to_table(self.e2(va)) {
            self.lemma_target(0, vpn(va, 2) as int);
            assert(m2.e2(va) == self.e2(va));
            assert(m2.t1(va) == self.t1(va));
            if pte_points_to_table(self.e1(va)) {
                self.lemma_target(self.t1(va), vpn(va, 1) as int);
                assert(m2.e1(va) == self.e1(va));
                assert(m2.t0(va) == self.t0(va));
            }
        }
    }

    /// Tables with the same pointing entries route every walk alike.
    pub proof fn lemma_same_directories_slots(self, other: PtMem, va: usize)
        requires
            self.wf(),
            self.same_directories(other),
        ensures
            forall|l: int| #[trigger] other.slot(va, l) == self.slot(va, l),
    {
        reveal(PtMem::wf);
        self.lemma_slot_in_bounds(va);
        assert(vpn(va, 2) < 512);
        if pte_points_to_table(self.e2(va)) || pte_points_to_table(other.e2(va)) {
            assert(other.e2(va) == self.e2(va));
            self.lemma_target(0, vpn(va, 2) as int);
            assert(other.t1(va) == self.t1(va));
            if pte_points_to_table(self.e1(va)) || pte_points_to_table(other.e1(va)) {
                assert(other.e1(va) == self.e1(va));
                assert(other.t0(va) == self.t0(va));
            }
        } else {
            assert(other.e2(va) == self.e2(va) || !pte_points_to_table(other.e2(va)));
        }
    }
}

impl PtMem {
    /// Addresses in one page of `level_size(l + 1)` bytes reach their slots
    /// at level `l` alike: both or neither.
    pub proof fn lemma_slot_some_in_region(self, a: usize, b: usize, l: int)
        requires
            0 <= l <= 1,
            (a as int) / level_size(l + 1) == (b as int) / level_size(l + 1),
        ensures
            self.slot(a, l) is Some <==> self.slot(b, l) is Some,
    {
        lemma_coarser_page(a as int, b as int, l + 1, 2);
        assert(vpn(a, 2) == vpn(b, 2));
        assert(self.e2(a) == self.e2(b));
        if l == 0 {
            assert(vpn(a, 1) == vpn(b, 1));
            assert(self.t1(a) == self.t1(b));
            assert(self.e1(a) == self.e1(b));
        }
    }
}

impl PtMem {
    /// A walk that gets down to level 0 gets down to level 1.
    pub proof fn lemma_reaches_up(self, va: usize)
        ensures
            self.reaches(va, 0) ==> self.reaches(va, 1),
    {
        reveal(PtMem::reaches);
    }

    /// Addresses in one page of `level_size(l + 1)` bytes get down to level
    /// `l` alike.
    pub proof fn lemma_reaches_in_region(self, a: usize, b: usize, l: int)
        requires
            0 <= l <= 1,
            (a as int) / level_size(l + 1) == (b as int) / level_size(l + 1),
        ensures
            self.reaches(a, l) <==> self.reaches(b, l),
    {
        reveal(PtMem::reaches);
        self.lemma_slot_some_in_region(a, b, l);
    }
}

/// How many pages of `size` bytes meet the addresses `first..next`.
pub open spec fn regions_met(first: int, next: int, size: int) -> int {
    if next <= first {
        0
    } else {
        (next - 1) / size - first / size + 1
    }
}

/// The tables that tiling the range from the largest page size down may add:
/// one for each gigabyte region that its megapages and 4 KiB pages meet, and
/// one for each 2 MiB region that its 4 KiB pages meet.
pub open spec fn descending_need(
    virtual_range: AddressRange<VirtualAddr>,
    physical_range: AddressRange<PhysicalAddr>,
) -> int {
    let below_huge = virtual_range.start@ + huge_bytes(virtual_range, physical_range);
    let small = below_huge + large_bytes(virtual_range, physical_range);
    regions_met(below_huge, virtual_range.end@ as int, HUGE_PAGE_SIZE as int) + regions_met(
        small,
        virtual_range.end@ as int,
        LARGE_PAGE_SIZE as int,
    )
}

/// A page of `s` bytes at a multiple of `s` lies in one page of `size`
/// bytes, when `s` divides `size`.
pub proof fn lemma_page_in_region(c: int, s: int, size: int)
    requires
        0 <= c,
        s > 0,
        size % s == 0,
        size >= s,
        c % s == 0,
    ensures
        (c + s - 1) / size == c / size,
{
    let q = c / size;
    let r = c % size;
    vstd::arithmetic::div_mod::lemma_fundamental_div_mod(c, size);
    vstd::arithmetic::div_mod::lemma_mod_bound(c, size);
    vstd::arithmetic::mul::lemma_mul_is_commutative(size, q);
    let k = size / s;
    vstd::arithmetic::div_mod::lemma_fundamental_div_mod(size, s);
    assert(k > 0) by (nonlinear_arith)
        requires
            size == s * k,
            size > 0,
            s > 0,
    ;
    vstd::arithmetic::div_mod::lemma_mod_mod(c, s, k);
    let j = r / s;
    vstd::arithmetic::div_mod::lemma_fundamental_div_mod(r, s);
    vstd::arithmetic::div_mod::lemma_div_pos_is_pos(r, s);
    assert(r + s <= size) by (nonlinear_arith)
        requires
            r == s * j,
            size == s * k,
            r < size,
            s > 0,
            j >= 0,
    ;
    vstd::arithmetic::div_mod::lemma_fundamental_div_mod_converse(c + s - 1, size, q, r + s - 1);
}

/// Meeting more addresses meets at least as many pages.
pub proof fn lemma_regions_monotone(first: int, n1: int, n2: int, size: int)
    requires
        size > 0,
        0 <= first,
        n1 <= n2,
    ensures
        0 <= regions_met(first, n1, size) <= regions_met(first, n2, size),
{
    if n2 > first {
        vstd::arithmetic::div_mod::lemma_div_is_ordered(first, n2 - 1, size);
    }
    if n1 > first {
        vstd::arithmetic::div_mod::lemma_div_is_ordered(first, n1 - 1, size);
        vstd::arithmetic::div_mod::lemma_div_is_ordered(n1 - 1, n2 - 1, size);
    }
}

/// Appending the page `c..c + s`, where `s` divides `size`, meets one more
/// page of `size` bytes exactly when `c` is where the addresses start or
/// where such a page starts.
pub proof fn lemma_regions_step(first: int, c: int, s: int, size: int)
    requires
        0 <= first <= c,
        s > 0,
        size % s == 0,
        size >= s,
        c % s == 0,
    ensures
        regions_met(first, c + s, size) == regions_met(first, c, size) + (if c == first || c % size
            == 0 {
            1int
        } else {
            0int
        }),
{
    let q = c / size;
    let r = c % size;
    vstd::arithmetic::div_mod::lemma_fundamental_div_mod(c, size);
    vstd::arithmetic::div_mod::lemma_mod_bound(c, size);
    vstd::arithmetic::mul::lemma_mul_is_commutative(size, q);
    let k = size / s;
    vstd::arithmetic::div_mod::lemma_fundamental_div_mod(size, s);
    assert(k > 0) by (nonlinear_arith)
        requires
            size == s * k,
            size > 0,
            s > 0,
    ;
    vstd::arithmetic::div_mod::lemma_mod_mod(c, s, k);
    let j = r / s;
    vstd::arithmetic::div_mod::lemma_fundamental_div_mod(r, s);
    vstd::arithmetic::div_mod::lemma_div_pos_is_pos(r, s);
    assert(r + s <= size) by (nonlinear_arith)
        requires
            r == s * j,
            size == s * k,
            r < size,
            s > 0,
            j >= 0,
    ;
    vstd::arithmetic::div_mod::lemma_fundamental_div_mod_converse(c + s - 1, size, q, r + s - 1);
    if c > first {
        if r == 0 {
            assert(c - 1 == (q - 1) * size + (size - 1)) by (nonlinear_arith)
                requires
                    c == q * size,
            ;
            vstd::arithmetic::div_mod::lemma_fundamental_div_mod_converse(c - 1, size, q - 1, size - 1);
        } else {
            vstd::arithmetic::div_mod::lemma_fundamental_div_mod_converse(c - 1, size, q, r - 1);
        }
    }
}

/// Addresses in one page of a level lie in one page of every higher level.
pub proof fn lemma_coarser_page(a: int, b: int, l1: int, l2: int)
    requires
        0 <= l1 <= l2 <= 2,
        0 <= a,
        0 <= b,
        a / level_size(l1) == b / level_size(l1),
    ensures
        a / level_size(l2) == b / level_size(l2),
{
    let s1 = level_size(l1);
    let m: int = if l1 == l2 {
        1
    } else if l2 - l1 == 1 {
        512
    } else {
        262144
    };
    assert(level_size(l2) == s1 * m);
    vstd::arithmetic::div_mod::lemma_div_denominator(a, s1, m);
    vstd::arithmetic::div_mod::lemma_div_denominator(b, s1, m);
}

/// The page of `level_size(level)` bytes that holds `va` shares no address
/// with the range, or the range is empty.
pub open spec fn page_outside(va: usize, level: int, r: AddressRange<VirtualAddr>) -> bool {
    let base = ((va as int) / level_size(level)) * level_size(level);
    r.len() == 0 || base + level_size(level) <= r.start@ || r.end@ <= base
}

/// A page `cur..cur + level_size(level)` inside the range and the page of
/// `va` at `l2`, which lies outside the range, differ at the coarser of the
/// two levels.
pub proof fn lemma_outside_page_differs(
    va: usize,
    l2: int,
    r: AddressRange<VirtualAddr>,
    cur: int,
    level: int,
)
    requires
        0 <= l2 <= 2,
        0 <= level <= 2,
        page_outside(va, l2, r),
        r.start@ <= cur,
        cur + level_size(level) <= r.end@,
        cur % level_size(level) == 0,
    ensures
        l2 <= level ==> (va as int) / level_size(level) != cur / level_size(level),
        level < l2 ==> (va as int) / level_size(l2) != cur / level_size(l2),
{
    let s2 = level_size(l2);
    let s = level_size(level);
    let q = (va as int) / s2;
    vstd::arithmetic::div_mod::lemma_fundamental_div_mod(va as int, s2);
    vstd::arithmetic::div_mod::lemma_mod_bound(va as int, s2);
    vstd::arithmetic::mul::lemma_mul_is_commutative(q, s2);
    assert(q * s2 <= va && va < q * s2 + s2);
    if l2 <= level && (va as int) / s == cur / s {
        lemma_page_of(va as int, cur, s);
    }
    if level < l2 && q == cur / s2 {
        vstd::arithmetic::div_mod::lemma_fundamental_div_mod(cur, s2);
        vstd::arithmetic::div_mod::lemma_mod_bound(cur, s2);
    }
}

/// The page of `s` bytes that holds `va` lies within `lo..hi` when both
/// bounds are multiples of `s`.
pub proof fn lemma_page_between(va: int, lo: int, hi: int, s: int)
    requires
        s > 0,
        0 <= lo <= va < hi,
        lo % s == 0,
        hi % s == 0,
    ensures
        lo <= (va / s) * s,
        (va / s) * s + s <= hi,
{
    let q = va / s;
    vstd::arithmetic::div_mod::lemma_fundamental_div_mod(va, s);
    vstd::arithmetic::div_mod::lemma_mod_bound(va, s);
    vstd::arithmetic::mul::lemma_mul_is_commutative(q, s);
    let base = q * s;
    assert(base % s == 0) by {
        vstd::arithmetic::div_mod::lemma_mod_multiples_basic(q, s);
    }
    assert(base >= 0) by {
        vstd::arithmetic::div_mod::lemma_div_pos_is_pos(va, s);
        vstd::arithmetic::mul::lemma_mul_nonnegative(q, s);
    }
    if lo > base {
        lemma_page_of(lo, base, s);
        lemma_page_of(va, base, s);
        vstd::arithmetic::div_mod::lemma_fundamental_div_mod(lo, s);
        vstd::arithmetic::mul::lemma_mul_is_commutative(lo / s, s);
    }
    if hi < base + s {
        lemma_page_of(hi, base, s);
        vstd::arithmetic::div_mod::lemma_fundamental_div_mod(hi, s);
        vstd::arithmetic::mul::lemma_mul_is_commutative(hi / s, s);
    }
}

/// Mapping a range that passes the checks puts each of its addresses in a
/// page that lies within the range.
pub proof fn lemma_page_in_descending(
    vr: AddressRange<VirtualAddr>,
    pr: AddressRange<PhysicalAddr>,
    va: usize,
)
    requires
        range_check_error(vr, pr) is None,
        vr.start@ <= va < vr.end@,
    ensures
        vr.start@ <= ((va as int) / level_size(descending_level(vr, pr, va))) * level_size(
            descending_level(vr, pr, va),
        ),
        ((va as int) / level_size(descending_level(vr, pr, va))) * level_size(
            descending_level(vr, pr, va),
        ) + level_size(descending_level(vr, pr, va)) <= vr.end@,
{
    let len = vr.len() as int;
    let start = vr.start@ as int;
    let hb = huge_bytes(vr, pr);
    let lb = large_bytes(vr, pr);
    let g = HUGE_PAGE_SIZE as int;
    let m = LARGE_PAGE_SIZE as int;
    lemma_whole_multiples(0, len, g);
    assert(0 <= hb <= len && hb % m == 0) by {
        if vr.start@ % HUGE_PAGE_SIZE == 0 && pr.start@ % (HUGE_PAGE_SIZE as u64) == 0 {
            let q = len / g;
            vstd::arithmetic::div_mod::lemma_div_pos_is_pos(len, g);
            assert(q * g == (q * 512) * m) by (nonlinear_arith)
                requires
                    g == 0x4000_0000,
                    m == 0x20_0000,
            ;
            vstd::arithmetic::div_mod::lemma_mod_multiples_basic(q * 512, m);
        }
    }
    lemma_whole_multiples(0, len - hb, m);
    assert(0 <= lb <= len - hb && lb % m == 0) by {
        if vr.start@ % LARGE_PAGE_SIZE == 0 && pr.start@ % (LARGE_PAGE_SIZE as u64) == 0 {
            vstd::arithmetic::div_mod::lemma_mod_multiples_basic((len - hb) / m, m);
        }
    }
    if va < start + hb {
        assert(hb % g == 0) by {
            vstd::arithmetic::div_mod::lemma_mod_multiples_basic(len / g, g);
        }
        assert((start + hb) % g == 0) by {
            vstd::arithmetic::div_mod::lemma_add_mod_noop(start, hb, g);
        }
        lemma_page_between(va as int, start, start + hb, g);
    } else if va < start + hb + lb {
        assert((start + hb) % m == 0) by {
            vstd::arithmetic::div_mod::lemma_add_mod_noop(start, hb, m);
        }
        assert((start + hb + lb) % m == 0) by {
            vstd::arithmetic::div_mod::lemma_add_mod_noop(start + hb, lb, m);
        }
        lemma_page_between(va as int, start + hb, start + hb + lb, m);
    } else {
        lemma_page_between(va as int, start, vr.end@ as int, 4096);
    }
}

/// Every canonical page whose page of its own size lies outside the range is
/// as taken or free in `after` as in `before`.
pub open spec fn taken_outside_unchanged(
    before: PtMem,
    after: PtMem,
    r: AddressRange<VirtualAddr>,
) -> bool {
    forall|va: usize, level: int|
        canonical(va) && 0 <= level <= 2 && page_outside(va, level, r) ==> #[trigger] after.page_taken(
            va,
            level,
        ) == before.page_taken(va, level)
}

/// Bytes at the start of a range that tiling it from the largest page size
/// down covers with 1 GiB pages: all whole gigapages, if both starts are
/// aligned to them.
pub open spec fn huge_bytes(
    virtual_range: AddressRange<VirtualAddr>,
    physical_range: AddressRange<PhysicalAddr>,
) -> int {
    if virtual_range.start@ % HUGE_PAGE_SIZE == 0 && physical_range.start@ % (HUGE_PAGE_SIZE as u64)
        == 0 {
        (virtual_range.len() as int / HUGE_PAGE_SIZE as int) * HUGE_PAGE_SIZE
    } else {
        0
    }
}

/// Bytes after the gigapages that mapping a range covers with 2 MiB pages:
/// all whole megapages of the rest, if both starts are aligned to them.
pub open spec fn large_bytes(
    virtual_range: AddressRange<VirtualAddr>,
    physical_range: AddressRange<PhysicalAddr>,
) -> int {
    if virtual_range.start@ % LARGE_PAGE_SIZE == 0 && physical_range.start@ % (
    LARGE_PAGE_SIZE as u64) == 0 {
        ((virtual_range.len() as int - huge_bytes(virtual_range, physical_range))
            / LARGE_PAGE_SIZE as int) * LARGE_PAGE_SIZE
    } else {
        0
    }
}

/// The level of the page that tiling the range from the largest page size
/// down puts `va` in: gigapages first, then megapages, then 4 KiB pages for
/// the rest.
pub open spec fn descending_level(
    virtual_range: AddressRange<VirtualAddr>,
    physical_range: AddressRange<PhysicalAddr>,
    va: usize,
) -> int {
    if va < virtual_range.start@ + huge_bytes(virtual_range, physical_range) {
        2
    } else if va < virtual_range.start@ + huge_bytes(virtual_range, physical_range) + large_bytes(
        virtual_range,
        physical_range,
    ) {
        1
    } else {
        0
    }
}

/// Where the pages of the fewest that tile a range stop growing. From the
/// start, 4 KiB pages run up to the first 2 MiB boundary from which a
/// megapage fits, and megapages from there up to the first 1 GiB boundary
/// from which a gigapage fits; each point is the end of the range where no
/// such page fits. From the second point on, the range is tiled from the
/// largest page size down.
pub open spec fn ascent_points(
    virtual_range: AddressRange<VirtualAddr>,
    physical_range: AddressRange<PhysicalAddr>,
) -> (int, int) {
    let s = virtual_range.start@ as int;
    let e = s + virtual_range.len();
    let d = s - physical_range.start@;
    let m = LARGE_PAGE_SIZE as int;
    let g = HUGE_PAGE_SIZE as int;
    let up_m = round_up(s as nat, m as nat) as int;
    let a1 = if d % m == 0 && up_m + m <= e {
        up_m
    } else {
        e
    };
    let up_g = round_up(a1 as nat, g as nat) as int;
    let a2 = if a1 < e && d % g == 0 && up_g + g <= e {
        up_g
    } else {
        a1
    };
    (a1, a2)
}

/// The bounds of the three parts of a range: growing 4 KiB pages, growing
/// megapages, and the rest.
pub open spec fn part_bound(
    virtual_range: AddressRange<VirtualAddr>,
    physical_range: AddressRange<PhysicalAddr>,
    k: int,
) -> int {
    if k <= 0 {
        virtual_range.start@ as int
    } else if k == 1 {
        ascent_points(virtual_range, physical_range).0
    } else if k == 2 {
        ascent_points(virtual_range, physical_range).1
    } else {
        virtual_range.start@ + virtual_range.len()
    }
}

/// Part `k` of a range (`k` in `0..3`), with the physical addresses it maps to.
pub open spec fn range_part(
    virtual_range: AddressRange<VirtualAddr>,
    physical_range: AddressRange<PhysicalAddr>,
    k: int,
) -> (AddressRange<VirtualAddr>, AddressRange<PhysicalAddr>) {
    let lo = part_bound(virtual_range, physical_range, k);
    let hi = part_bound(virtual_range, physical_range, k + 1);
    let s = virtual_range.start@ as int;
    (
        AddressRange { start: VirtualAddr::at(lo as usize), end: VirtualAddr::at(hi as usize) },
        AddressRange {
            start: PhysicalAddr::at((physical_range.start@ + (lo - s)) as u64),
            end: PhysicalAddr::at((physical_range.start@ + (hi - s)) as u64),
        },
    )
}

/// The part of the range that `va` falls in.
pub open spec fn part_of(
    virtual_range: AddressRange<VirtualAddr>,
    physical_range: AddressRange<PhysicalAddr>,
    va: usize,
) -> int {
    if va < part_bound(virtual_range, physical_range, 1) {
        0
    } else if va < part_bound(virtual_range, physical_range, 2) {
        1
    } else {
        2
    }
}

/// The level of the page that mapping the range puts `va` in: pages grow
/// from the start of the range as soon as a larger one fits (see
/// `ascent_points`), and the rest is tiled from the largest page size down;
/// within each part, the level is the one that tiling the part from the
/// largest page size down gives.
pub open spec fn range_page_level(
    virtual_range: AddressRange<VirtualAddr>,
    physical_range: AddressRange<PhysicalAddr>,
    va: usize,
) -> int {
    let part = range_part(virtual_range, physical_range, part_of(virtual_range, physical_range, va));
    descending_level(part.0, part.1, va)
}

/// Every page that mapping the range creates has its slot free in `m`.
pub open spec fn range_free(
    m: PtMem,
    virtual_range: AddressRange<VirtualAddr>,
    physical_range: AddressRange<PhysicalAddr>,
) -> bool {
    forall|va: usize|
        virtual_range.start@ <= va < virtual_range.end@ ==> !#[trigger] m.page_taken(
            va,
            range_page_level(virtual_range, physical_range, va),
        )
}

/// The tables that mapping the range may add: those that its three parts may
/// add, each counted on its own.
pub open spec fn table_need(
    virtual_range: AddressRange<VirtualAddr>,
    physical_range: AddressRange<PhysicalAddr>,
) -> int {
    let p0 = range_part(virtual_range, physical_range, 0);
    let p1 = range_part(virtual_range, physical_range, 1);
    let p2 = range_part(virtual_range, physical_range, 2);
    descending_need(p0.0, p0.1) + descending_need(p1.0, p1.1) + descending_need(p2.0, p2.1)
}

/// A multiple of `big` is a multiple of each divisor of `big`.
pub proof fn lemma_multiple_of_divisor(x: int, big: int, small: int)
    requires
        small > 0,
        big > 0,
        big % small == 0,
        x % big == 0,
    ensures
        x % small == 0,
{
    vstd::arithmetic::div_mod::lemma_fundamental_div_mod(x, big);
    vstd::arithmetic::div_mod::lemma_fundamental_div_mod(big, small);
    let q = x / big;
    let r = big / small;
    assert(x == (r * q) * small) by (nonlinear_arith)
        requires
            x == big * q,
            big == small * r,
    ;
    vstd::arithmetic::div_mod::lemma_mod_multiples_basic(r * q, small);
}

/// The three parts of a range that passes the checks follow one another from
/// its start to its end, each passes the checks itself, the first is tiled
/// with 4 KiB pages only and the second with megapages only.
#[verifier::spinoff_prover]
pub proof fn lemma_parts(vr: AddressRange<VirtualAddr>, pr: AddressRange<PhysicalAddr>)
    requires
        range_check_error(vr, pr) is None,
        pr.fits_usize(),
    ensures
        forall|k: int| 0 <= k < 3 ==> #[trigger] part_bound(vr, pr, k) <= part_bound(vr, pr, k + 1),
        forall|k: int| 0 <= k <= 3 ==> #[trigger] part_bound(vr, pr, k) % 4096 == 0,
        part_bound(vr, pr, 0) == vr.start@,
        part_bound(vr, pr, 3) == vr.start@ + vr.len(),
        part_bound(vr, pr, 3) <= usize::MAX,
        forall|k: int|
            0 <= k < 3 ==> {
                let part = #[trigger] range_part(vr, pr, k);
                &&& part.0.start@ == part_bound(vr, pr, k)
                &&& part.0.end@ == part_bound(vr, pr, k + 1)
                &&& part.1.start@ == pr.start@ + (part_bound(vr, pr, k) - vr.start@)
                &&& part.1.end@ == pr.start@ + (part_bound(vr, pr, k + 1) - vr.start@)
                &&& part.0.len() == part_bound(vr, pr, k + 1) - part_bound(vr, pr, k)
                &&& part.1.fits_usize()
                &&& range_check_error(part.0, part.1) is None
            },
        part_bound(vr, pr, 0) < part_bound(vr, pr, 1) ==> huge_bytes(range_part(vr, pr, 0).0, range_part(vr, pr, 0).1) == 0
            && large_bytes(range_part(vr, pr, 0).0, range_part(vr, pr, 0).1) == 0,
        part_bound(vr, pr, 1) < part_bound(vr, pr, 2) ==> huge_bytes(range_part(vr, pr, 1).0, range_part(vr, pr, 1).1) == 0
            && large_bytes(range_part(vr, pr, 1).0, range_part(vr, pr, 1).1) == part_bound(vr, pr, 2) - part_bound(vr, pr, 1)
            && part_bound(vr, pr, 2) - part_bound(vr, pr, 1) >= LARGE_PAGE_SIZE,
{
    broadcast use VirtualAddr::lemma_at_view, PhysicalAddr::lemma_at_view;

    let s = vr.start@ as int;
    let e = s + vr.len();
    let ps = pr.start@ as int;
    let d = s - ps;
    let m = LARGE_PAGE_SIZE as int;
    let g = HUGE_PAGE_SIZE as int;
    let up_m = round_up(s as nat, m as nat) as int;
    lemma_round_up(s as nat, m as nat);
    let a1 = ascent_points(vr, pr).0;
    let up_g = round_up(a1 as nat, g as nat) as int;
    lemma_round_up(a1 as nat, g as nat);
    let a2 = ascent_points(vr, pr).1;
    assert(vr.len() == pr.len());
    assert(e <= usize::MAX);
    assert(ps + vr.len() <= u64::MAX);
    lemma_multiple_of_divisor(up_m, m, 4096);
    lemma_multiple_of_divisor(up_g, g, 4096);
    assert(e % 4096 == 0) by {
        if vr.end@ < s {
            assert(e == s);
        }
    }
    assert(s <= a1 <= a2 <= e);
    assert(a1 % 4096 == 0);
    assert(a2 % 4096 == 0);
    assert forall|k: int| 0 <= k < 3 implies {
        let part = #[trigger] range_part(vr, pr, k);
        &&& part.0.start@ == part_bound(vr, pr, k)
        &&& part.0.end@ == part_bound(vr, pr, k + 1)
        &&& part.1.start@ == pr.start@ + (part_bound(vr, pr, k) - vr.start@)
        &&& part.1.end@ == pr.start@ + (part_bound(vr, pr, k + 1) - vr.start@)
        &&& part.0.len() == part_bound(vr, pr, k + 1) - part_bound(vr, pr, k)
        &&& part.1.fits_usize()
        &&& range_check_error(part.0, part.1) is None
    } by {
        let lo = part_bound(vr, pr, k);
        let hi = part_bound(vr, pr, k + 1);
        assert(s <= lo <= hi <= e);
        assert((ps + (lo - s)) % 4096 == 0) by {
            vstd::arithmetic::div_mod::lemma_add_mod_noop(ps, lo - s, 4096);
            vstd::arithmetic::div_mod::lemma_sub_mod_noop(lo, s, 4096);
        }
        assert((ps + (hi - s)) % 4096 == 0) by {
            vstd::arithmetic::div_mod::lemma_add_mod_noop(ps, hi - s, 4096);
            vstd::arithmetic::div_mod::lemma_sub_mod_noop(hi, s, 4096);
        }
    }
    if s < a1 {
        let p0 = range_part(vr, pr, 0);
        assert(p0.1.start@ == ps);
        if a1 == up_m && d % m == 0 && up_m + m <= e {
            assert(s % m != 0);
            if s % g == 0 {
                lemma_multiple_of_divisor(s, g, m);
            }
        } else {
            if s % m == 0 && ps % m == 0 {
                vstd::arithmetic::div_mod::lemma_sub_mod_noop(s, ps, m);
                assert(d % m == 0);
                assert(up_m == s);
                assert(p0.0.len() < m);
                vstd::arithmetic::div_mod::lemma_basic_div(p0.0.len() as int, m);
                vstd::arithmetic::div_mod::lemma_basic_div(p0.0.len() as int, g);
            }
            if s % g == 0 && ps % g == 0 {
                lemma_multiple_of_divisor(s, g, m);
                lemma_multiple_of_divisor(ps, g, m);
            }
        }
    }
    if a1 < a2 {
        let p1 = range_part(vr, pr, 1);
        assert(a1 < e);
        assert(a1 == up_m && d % m == 0);
        assert(a2 == up_g);
        assert(a1 % g != 0);
        assert(p1.0.start@ == a1);
        assert(p1.1.start@ == a1 - d);
        assert((a1 - d) % m == 0) by {
            vstd::arithmetic::div_mod::lemma_sub_mod_noop(a1, d, m);
        }
        lemma_multiple_of_divisor(up_g, g, m);
        let len1 = a2 - a1;
        assert(len1 % m == 0) by {
            vstd::arithmetic::div_mod::lemma_sub_mod_noop(a2, a1, m);
        }
        assert(p1.0.len() == len1);
        vstd::arithmetic::div_mod::lemma_fundamental_div_mod(len1, m);
        assert(len1 / m * m == len1);
        assert(len1 >= m) by {
            if len1 < m {
                vstd::arithmetic::div_mod::lemma_small_mod(len1 as nat, m as nat);
            }
        }
    }
}

/// Mapping a range that passes the checks puts each of its addresses in a
/// page that lies within the range.
#[verifier::spinoff_prover]
pub proof fn lemma_page_in_range(
    vr: AddressRange<VirtualAddr>,
    pr: AddressRange<PhysicalAddr>,
    va: usize,
)
    requires
        range_check_error(vr, pr) is None,
        pr.fits_usize(),
        vr.start@ <= va < vr.end@,
    ensures
        vr.start@ <= ((va as int) / level_size(range_page_level(vr, pr, va))) * level_size(
            range_page_level(vr, pr, va),
        ),
        ((va as int) / level_size(range_page_level(vr, pr, va))) * level_size(
            range_page_level(vr, pr, va),
        ) + level_size(range_page_level(vr, pr, va)) <= vr.end@,
{
    lemma_parts(vr, pr);
    let k = part_of(vr, pr, va);
    let part = range_part(vr, pr, k);
    assert(range_part(vr, pr, k) == part);
    assert(part.0.start@ <= va < part.0.end@);
    lemma_page_in_descending(part.0, part.1, va);
}

/// Two numbers differ by a multiple of `m` exactly when they leave the same
/// remainder.
pub proof fn lemma_same_residue(x: int, y: int, m: int)
    requires
        m > 0,
    ensures
        ((x - y) % m == 0) <==> (x % m == y % m),
{
    vstd::arithmetic::div_mod::lemma_sub_mod_noop(x, y, m);
    vstd::arithmetic::div_mod::lemma_mod_bound(x, m);
    vstd::arithmetic::div_mod::lemma_mod_bound(y, m);
    let dx = x % m;
    let dy = y % m;
    if dx == dy {
        vstd::arithmetic::div_mod::lemma_small_mod(0, m as nat);
    }
    if dx > dy {
        vstd::arithmetic::div_mod::lemma_small_mod((dx - dy) as nat, m as nat);
    } else if dx < dy {
        vstd::arithmetic::div_mod::lemma_mod_add_multiples_vanish(dx - dy, m);
        vstd::arithmetic::div_mod::lemma_small_mod((m + dx - dy) as nat, m as nat);
    }
}

/// The page of `s` bytes that holds `va` starts at a multiple of `s` at most
/// `va`, and lies on the same side of each multiple `b` of `s` as `va`.
pub proof fn lemma_page_base(va: int, b: int, s: int)
    requires
        s > 0,
        0 <= va,
        0 <= b,
        b % s == 0,
    ensures
        ((va / s) * s) % s == 0,
        (va / s) * s <= va < (va / s) * s + s,
        b <= va ==> b <= (va / s) * s,
        va < b ==> (va / s) * s + s <= b,
{
    vstd::arithmetic::div_mod::lemma_fundamental_div_mod(va, s);
    vstd::arithmetic::div_mod::lemma_mod_bound(va, s);
    let q = va / s;
    vstd::arithmetic::mul::lemma_mul_is_commutative(q, s);
    vstd::arithmetic::div_mod::lemma_mod_multiples_basic(q, s);
    vstd::arithmetic::div_mod::lemma_mod_multiples_basic(q + 1, s);
    assert((q + 1) * s == q * s + s) by (nonlinear_arith);
    vstd::arithmetic::div_mod::lemma_div_pos_is_pos(va, s);
    vstd::arithmetic::mul::lemma_mul_nonnegative(q, s);
    if b <= va {
        lemma_page_between(va, b, q * s + s, s);
    }
    if va < b {
        lemma_page_between(va, q * s, b, s);
    }
}

/// Rounding up gives the least multiple of `m` from `n` on.
#[verifier::spinoff_prover]
pub proof fn lemma_round_up_least(n: nat, m: nat, x: int)
    requires
        m > 0,
        x % (m as int) == 0,
        x >= n,
    ensures
        x >= round_up(n, m),
{
    lemma_round_up(n, m);
    let r = round_up(n, m) as int;
    if x < r {
        assert((r - x) % (m as int) == 0) by {
            vstd::arithmetic::div_mod::lemma_sub_mod_noop(r, x, m as int);
            vstd::arithmetic::div_mod::lemma_small_mod(0, m);
        }
        vstd::arithmetic::div_mod::lemma_small_mod((r - x) as nat, m);
    }
}

/// A page of `level` that holds `va` could map part of the range: it lies
/// within the range, and the physical address it would map to is aligned to
/// its size.
pub open spec fn page_fits(
    virtual_range: AddressRange<VirtualAddr>,
    physical_range: AddressRange<PhysicalAddr>,
    va: int,
    level: int,
) -> bool {
    let size = level_size(level);
    let base = (va / size) * size;
    &&& virtual_range.start@ <= base
    &&& base + size <= virtual_range.start@ + virtual_range.len()
    &&& (base - (virtual_range.start@ - physical_range.start@)) % size == 0
}

/// The tiling `range_page_level` gives each address of a range the largest
/// page that holds it and could map part of the range: no page of a larger
/// level that holds the address lies within the range with its physical
/// address aligned.
#[verifier::spinoff_prover]
pub proof fn lemma_largest_pages(
    vr: AddressRange<VirtualAddr>,
    pr: AddressRange<PhysicalAddr>,
    va: usize,
    level: int,
)
    requires
        range_check_error(vr, pr) is None,
        pr.fits_usize(),
        vr.start@ <= va < vr.end@,
        0 <= level <= 2,
        page_fits(vr, pr, va as int, level),
    ensures
        level <= range_page_level(vr, pr, va),
{
    lemma_parts(vr, pr);
    let s = vr.start@ as int;
    let e = s + vr.len();
    let d = s - pr.start@;
    let m = LARGE_PAGE_SIZE as int;
    let g = HUGE_PAGE_SIZE as int;
    let a1 = part_bound(vr, pr, 1);
    let a2 = part_bound(vr, pr, 2);
    let up_m = round_up(s as nat, m as nat) as int;
    let up_g = round_up(a1 as nat, g as nat) as int;
    lemma_round_up(s as nat, m as nat);
    lemma_round_up(a1 as nat, g as nat);
    assert(e == vr.end@);
    let l = range_page_level(vr, pr, va);
    if level > l {
        let size = level_size(level);
        let base = (va as int / size) * size;
        lemma_page_base(va as int, 0, size);
        assert(base % m == 0) by {
            if level == 2 {
                lemma_multiple_of_divisor(base, g, m);
            }
        }
        assert(d % m == 0) by {
            lemma_same_residue(base, d, size);
            if level == 2 {
                lemma_multiple_of_divisor(d, g, m);
            }
            assert(d % size == 0) by {
                vstd::arithmetic::div_mod::lemma_small_mod(0, size as nat);
            }
        }
        lemma_round_up_least(s as nat, m as nat, base);
        assert(base >= up_m);
        assert(up_m + m <= e);
        assert(a1 == up_m);
        let k = part_of(vr, pr, va);
        if k == 0 {
            assert(va < a1);
        } else if k == 1 {
            assert(level == 2);
            lemma_round_up_least(a1 as nat, g as nat, base);
            assert(a2 == up_g);
        } else {
            let part = range_part(vr, pr, 2);
            let t = a2;
            let hb = huge_bytes(part.0, part.1);
            let lb = large_bytes(part.0, part.1);
            let len2 = e - t;
            assert(part.0.len() == len2);
            assert(t % m == 0) by {
                if t != a1 {
                    lemma_multiple_of_divisor(up_g, g, m);
                }
            }
            assert((t - d) % m == 0) by {
                vstd::arithmetic::div_mod::lemma_sub_mod_noop(t, d, m);
            }
            assert(part.1.start@ == t - d);
            if level == 2 {
                assert(d % g == 0) by {
                    lemma_same_residue(base, d, g);
                    vstd::arithmetic::div_mod::lemma_small_mod(0, g as nat);
                }
                lemma_round_up_least(a1 as nat, g as nat, base);
                assert(base >= up_g);
                assert(up_g + g <= e);
                assert(t == up_g);
                assert(t % g == 0);
                assert((t - d) % g == 0) by {
                    vstd::arithmetic::div_mod::lemma_sub_mod_noop(t, d, g);
                }
                vstd::arithmetic::div_mod::lemma_fundamental_div_mod(len2, g);
                vstd::arithmetic::div_mod::lemma_mod_bound(len2, g);
                assert(hb == (len2 / g) * g);
                assert((t + hb) % g == 0) by {
                    vstd::arithmetic::div_mod::lemma_mod_multiples_basic(len2 / g, g);
                    vstd::arithmetic::div_mod::lemma_add_mod_noop(t, hb, g);
                }
                assert(e - (t + hb) < g) by {
                    vstd::arithmetic::mul::lemma_mul_is_commutative(len2 / g, g);
                }
                lemma_page_base(va as int, t + hb, g);
                assert(va < t + hb);
            } else {
                assert(level == 1);
                assert(l == 0);
                vstd::arithmetic::div_mod::lemma_fundamental_div_mod(len2 - hb, m);
                vstd::arithmetic::div_mod::lemma_mod_bound(len2 - hb, m);
                assert(lb == ((len2 - hb) / m) * m);
                assert(hb % m == 0) by {
                    if hb != 0 {
                        vstd::arithmetic::div_mod::lemma_mod_multiples_basic(len2 / g, g);
                        lemma_multiple_of_divisor(hb, g, m);
                    }
                }
                let q = t + hb + lb;
                assert(q % m == 0) by {
                    vstd::arithmetic::div_mod::lemma_mod_multiples_basic((len2 - hb) / m, m);
                    vstd::arithmetic::div_mod::lemma_add_mod_noop(t, hb, m);
                    vstd::arithmetic::div_mod::lemma_add_mod_noop(t + hb, lb, m);
                }
                assert(e - q < m) by {
                    vstd::arithmetic::mul::lemma_mul_is_commutative((len2 - hb) / m, m);
                }
                assert(va >= q);
                lemma_page_base(va as int, q, m);
            }
        }
    }
}

/// Each page of the tiling `range_page_level` could map part of the range: it
/// lies within the range, and the physical address it maps to is aligned to
/// its size.
#[verifier::spinoff_prover]
pub proof fn lemma_pages_fit(vr: AddressRange<VirtualAddr>, pr: AddressRange<PhysicalAddr>, va: usize)
    requires
        range_check_error(vr, pr) is None,
        pr.fits_usize(),
        vr.start@ <= va < vr.end@,
    ensures
        page_fits(vr, pr, va as int, range_page_level(vr, pr, va)),
{
    lemma_parts(vr, pr);
    lemma_page_in_range(vr, pr, va);
    let l = range_page_level(vr, pr, va);
    let size = level_size(l);
    let d = vr.start@ - pr.start@;
    let k = part_of(vr, pr, va);
    let part = range_part(vr, pr, k);
    assert(part.0.start@ - part.1.start@ == d);
    assert(d % size == 0) by {
        vstd::arithmetic::div_mod::lemma_sub_mod_noop(part.0.start@ as int, part.1.start@ as int, size);
        if l == 0 {
            vstd::arithmetic::div_mod::lemma_sub_mod_noop(vr.start@ as int, pr.start@ as int, size);
        }
        vstd::arithmetic::div_mod::lemma_small_mod(0, size as nat);
    }
    lemma_page_base(va as int, 0, size);
    let base = (va as int / size) * size;
    assert((base - d) % size == 0) by {
        vstd::arithmetic::div_mod::lemma_sub_mod_noop(base, d, size);
        vstd::arithmetic::div_mod::lemma_small_mod(0, size as nat);
    }
    assert(vr.end@ == vr.start@ + vr.len());
}

/// Every page that tiling a range from the largest page size down creates has its slot free in `m`.
pub open spec fn descending_free(
    m: PtMem,
    virtual_range: AddressRange<VirtualAddr>,
    physical_range: AddressRange<PhysicalAddr>,
) -> bool {
    forall|va: usize|
        virtual_range.start@ <= va < virtual_range.end@ ==> !#[trigger] m.page_taken(
            va,
            descending_level(virtual_range, physical_range, va),
        )
}

/// `done` is a multiple of `m` within `0..=len`: it is below the last whole
/// multiple of `m` in `len` by at least `m`, or it is that multiple.
#[verifier::spinoff_prover]
pub proof fn lemma_whole_multiples(done: int, len: int, m: int)
    requires
        m > 0,
        0 <= done <= len,
        done % m == 0,
    ensures
        done + m <= len ==> done + m <= (len / m) * m,
        len - done < m ==> done == (len / m) * m,
        done <= (len / m) * m <= len,
        ((len / m) * m) % m == 0,
{
    vstd::arithmetic::div_mod::lemma_fundamental_div_mod(len, m);
    vstd::arithmetic::div_mod::lemma_fundamental_div_mod(done, m);
    vstd::arithmetic::div_mod::lemma_mod_multiples_basic(len / m, m);
    let q = len / m;
    let d = done / m;
    assert(done == m * d);
    assert(len == m * q + len % m);
    vstd::arithmetic::div_mod::lemma_mod_bound(len, m);
    if d > q {
        vstd::arithmetic::mul::lemma_mul_is_distributive_sub(m, d, q + 1);
        vstd::arithmetic::mul::lemma_mul_inequality(q + 1, d, m);
        assert(m * (q + 1) == m * q + m) by (nonlinear_arith);
    }
    if done + m <= len {
        if d >= q {
            vstd::arithmetic::mul::lemma_mul_inequality(q, d, m);
            assert(m * q + m <= m * d + m);
        }
        vstd::arithmetic::mul::lemma_mul_inequality(d + 1, q, m);
        assert(m * (d + 1) == m * d + m) by (nonlinear_arith);
        assert(q * m == m * q) by (nonlinear_arith);
    }
    if len - done < m {
        if d < q {
            vstd::arithmetic::mul::lemma_mul_inequality(d + 1, q, m);
            assert(m * (d + 1) == m * d + m) by (nonlinear_arith);
            assert((d + 1) * m == m * (d + 1) && q * m == m * q) by (nonlinear_arith);
            assert(done + m <= m * q);
            assert(m * q <= len);
        }
        if d > q {
            vstd::arithmetic::mul::lemma_mul_inequality(q + 1, d, m);
            assert(m * (q + 1) == m * q + m) by (nonlinear_arith);
            assert((q + 1) * m == m * (q + 1) && d * m == m * d) by (nonlinear_arith);
            assert(m * q + m <= done);
        }
        assert(d == q);
        assert(q * m == m * q) by (nonlinear_arith);
    }
    if d <= q {
        vstd::arithmetic::mul::lemma_mul_inequality(d, q, m);
    }
    assert(q * m == m * q) by (nonlinear_arith);
}

/// A range whose gigabyte regions hold nothing at all is free for mapping,
/// whatever page sizes it gets.
pub proof fn lemma_untouched_range_free(
    m: PtMem,
    virtual_range: AddressRange<VirtualAddr>,
    physical_range: AddressRange<PhysicalAddr>,
)
    requires
        forall|va: usize|
            virtual_range.start@ <= va < virtual_range.end@ ==> !pte_valid(#[trigger] m.e2(va)),
    ensures
        range_free(m, virtual_range, physical_range),
{
    assert forall|va: usize| virtual_range.start@ <= va < virtual_range.end@ implies !#[trigger] m.page_taken(
        va,
        range_page_level(virtual_range, physical_range, va),
    ) by {
        assert(!pte_valid(m.e2(va)));
    }
}

/// A page that holds a canonical address holds only canonical addresses.
pub proof fn lemma_same_page_canonical(a: usize, b: usize, level: int)
    requires
        canonical(a),
        0 <= level <= 2,
        (a as int) / level_size(level) == (b as int) / level_size(level),
    ensures
        canonical(b),
{
    reveal(PtMem::wf);
    reveal(PtMem::translate);
    let x = a as u64;
    let y = b as u64;
    assert(x as int == a as int && y as int == b as int);
    assert((x < 0x40_0000_0000u64 || x >= 0xFFFF_FFC0_0000_0000u64) && x / 0x4000_0000 == y
        / 0x4000_0000 ==> (y < 0x40_0000_0000u64 || y >= 0xFFFF_FFC0_0000_0000u64))
        by (bit_vector);
    assert((x < 0x40_0000_0000u64 || x >= 0xFFFF_FFC0_0000_0000u64) && x / 0x20_0000 == y
        / 0x20_0000 ==> (y < 0x40_0000_0000u64 || y >= 0xFFFF_FFC0_0000_0000u64))
        by (bit_vector);
    assert((x < 0x40_0000_0000u64 || x >= 0xFFFF_FFC0_0000_0000u64) && x / 4096 == y / 4096 ==> (y
        < 0x40_0000_0000u64 || y >= 0xFFFF_FFC0_0000_0000u64)) by (bit_vector);
}

/// Entry `i` of table `k` of `m`, or 0 where `m` holds no table `k`.
pub open spec fn entry_or_zero(m: PtMem, k: int, i: int) -> u64 {
    if 0 <= k < m.len() {
        m.entry(k, i)
    } else {
        0
    }
}

/// Each entry that `after` holds other than `before` did (0 in a table that
/// `before` did not hold) lies, in `after`, on the walk of an address that
/// `on` admits.
pub open spec fn entries_changed_on(before: PtMem, after: PtMem, on: spec_fn(usize) -> bool) -> bool {
    forall|k: int, i: int|
        0 <= k < after.len() && 0 <= i < 512 && #[trigger] after.entry(k, i) != entry_or_zero(
            before,
            k,
            i,
        ) ==> exists|va: usize, l: int|
            #![trigger after.slot(va, l)]
            on(va) && 0 <= l <= 2 && after.slot(va, l) == Some((k, i))
}

/// `after` keeps every slot that some walk reaches in `before`.
pub open spec fn slots_kept(before: PtMem, after: PtMem) -> bool {
    forall|va: usize, l: int|
        0 <= l <= 2 && before.slot(va, l) is Some ==> #[trigger] after.slot(va, l) == before.slot(
            va,
            l,
        )
}

/// The addresses of `r`.
pub open spec fn addresses_in(r: AddressRange<VirtualAddr>) -> spec_fn(usize) -> bool {
    |x: usize| r.start@ <= x < r.end@
}

/// The address `va` alone.
pub open spec fn address_is(va: usize) -> spec_fn(usize) -> bool {
    |x: usize| x == va
}

/// Slots kept over two steps are kept over both.
pub proof fn lemma_slots_kept_trans(m0: PtMem, m1: PtMem, m2: PtMem)
    requires
        slots_kept(m0, m1),
        slots_kept(m1, m2),
    ensures
        slots_kept(m0, m2),
{
    assert forall|va: usize, l: int| 0 <= l <= 2 && m0.slot(va, l) is Some implies #[trigger] m2.slot(
        va,
        l,
    ) == m0.slot(va, l) by {
        assert(m1.slot(va, l) == m0.slot(va, l));
    }
}

/// Two steps that each change entries only on walks of addresses that `r`
/// admits change, together, entries only on such walks, where the second
/// step keeps the slots and neither drops a table.
pub proof fn lemma_changed_trans(
    m0: PtMem,
    m1: PtMem,
    m2: PtMem,
    p: spec_fn(usize) -> bool,
    q: spec_fn(usize) -> bool,
    r: spec_fn(usize) -> bool,
)
    requires
        entries_changed_on(m0, m1, p),
        entries_changed_on(m1, m2, q),
        m0.len() <= m1.len() <= m2.len(),
        slots_kept(m1, m2),
        forall|x: usize| #[trigger] p(x) ==> r(x),
        forall|x: usize| #[trigger] q(x) ==> r(x),
    ensures
        entries_changed_on(m0, m2, r),
{
    assert forall|k: int, i: int|
        0 <= k < m2.len() && 0 <= i < 512 && #[trigger] m2.entry(k, i) != entry_or_zero(m0, k, i)
            implies exists|va: usize, l: int|
        #![trigger m2.slot(va, l)]
        r(va) && 0 <= l <= 2 && m2.slot(va, l) == Some((k, i)) by {
        if m2.entry(k, i) != entry_or_zero(m1, k, i) {
            let (va, l) = choose|va: usize, l: int|
                #![trigger m2.slot(va, l)]
                q(va) && 0 <= l <= 2 && m2.slot(va, l) == Some((k, i));
            assert(r(va));
        } else {
            assert(k < m1.len());
            assert(m1.entry(k, i) != entry_or_zero(m0, k, i));
            let (va, l) = choose|va: usize, l: int|
                #![trigger m1.slot(va, l)]
                p(va) && 0 <= l <= 2 && m1.slot(va, l) == Some((k, i));
            assert(m2.slot(va, l) == m1.slot(va, l));
            assert(r(va));
        }
    }
}

/// Addresses in the same page of `level` find that page's slot equally taken.
pub proof fn lemma_same_page_taken(m: PtMem, a: usize, b: usize, level: int)
    requires
        canonical(a),
        canonical(b),
        0 <= level <= 2,
        (a as int) / level_size(level) == (b as int) / level_size(level),
    ensures
        m.page_taken(a, level) == m.page_taken(b, level),
{
    lemma_same_page(a, b, level);
    assert(m.e2(a) == m.e2(b));
    if level <= 1 {
        assert(m.e1(a) == m.e1(b));
    }
    if level == 0 {
        assert(m.e0(a) == m.e0(b));
    }
}

/// Canonical addresses agree on their page of size `level_size(level)` exactly
/// when the walk indices from `level` up agree.
pub proof fn lemma_same_page(a: usize, b: usize, level: int)
    requires
        canonical(a),
        canonical(b),
        0 <= level <= 2,
    ensures
        (forall|l: int| level <= l <= 2 ==> vpn(a, l) == vpn(b, l)) <==> (a as int) / level_size(
            level,
        ) == (b as int) / level_size(level),
{
    reveal(PtMem::wf);
    reveal(PtMem::translate);
    let x = a as u64;
    let y = b as u64;
    assert(x as int == a as int && y as int == b as int);
    assert(vpn(a, 2) as int == (x / 0x4000_0000) as int % 512);
    assert(vpn(b, 2) as int == (y / 0x4000_0000) as int % 512);
    assert(vpn(a, 1) as int == (x / 0x20_0000) as int % 512);
    assert(vpn(b, 1) as int == (y / 0x20_0000) as int % 512);
    assert(vpn(a, 0) as int == (x / 4096) as int % 512);
    assert(vpn(b, 0) as int == (y / 4096) as int % 512);
    let same = forall|l: int| level <= l <= 2 ==> vpn(a, l) == vpn(b, l);
    if level == 2 {
        assert(same <==> vpn(a, 2) == vpn(b, 2));
        assert((x < 0x40_0000_0000u64 || x >= 0xFFFF_FFC0_0000_0000u64) && (y < 0x40_0000_0000u64
            || y >= 0xFFFF_FFC0_0000_0000u64) ==> (((x / 0x4000_0000) % 512 == (y / 0x4000_0000)
            % 512) <==> (x / 0x4000_0000 == y / 0x4000_0000))) by (bit_vector);
    } else if level == 1 {
        assert((x < 0x40_0000_0000u64 || x >= 0xFFFF_FFC0_0000_0000u64) && (y < 0x40_0000_0000u64
            || y >= 0xFFFF_FFC0_0000_0000u64) ==> (((x / 0x4000_0000) % 512 == (y / 0x4000_0000)
            % 512 && (x / 0x20_0000) % 512 == (y / 0x20_0000) % 512) <==> (x / 0x20_0000 == y
            / 0x20_0000))) by (bit_vector);
        assert(same <==> (vpn(a, 2) == vpn(b, 2) && vpn(a, 1) == vpn(b, 1)));
    } else {
        assert(same <==> (vpn(a, 2) == vpn(b, 2) && vpn(a, 1) == vpn(b, 1) && vpn(a, 0) == vpn(b, 0)));
        assert((x < 0x40_0000_0000u64 || x >= 0xFFFF_FFC0_0000_0000u64) && (y < 0x40_0000_0000u64
            || y >= 0xFFFF_FFC0_0000_0000u64) ==> (((x / 0x4000_0000) % 512 == (y / 0x4000_0000)
            % 512 && (x / 0x20_0000) % 512 == (y / 0x20_0000) % 512 && (x / 4096) % 512 == (y
            / 4096) % 512) <==> (x / 4096 == y / 4096))) by (bit_vector);
    }
}

} // verus!
