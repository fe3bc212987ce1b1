//! Hardware-defined four-level page-table structures, modelled as an arena
//! of table nodes addressed by their physical frame address.
//!
//! Every table is one frame of 512 eight-byte entries. An entry holds a
//! frame-aligned physical address plus permission bits in its low bits,
//! exactly as the hardware reads them.

use vstd::prelude::*;

verus! {

/// Entry bit: the entry is present (valid).
pub const PAGE_PRESENT: u64 = 1;

/// Entry bit: the mapping is writable.
pub const PAGE_WRITABLE: u64 = 2;

/// Entry bit: the mapping is reachable from user mode.
pub const PAGE_USER: u64 = 4;

/// Mask of the physical-address bits of an entry.
pub const ENTRY_ADDR_MASK: u64 = 0x000F_FFFF_FFFF_F000;

/// True iff entry `e` has its present bit set.
pub open spec fn entry_present(e: u64) -> bool {
    e & PAGE_PRESENT == PAGE_PRESENT
}

/// True iff entry `e` has its writable bit set.
pub open spec fn entry_writable(e: u64) -> bool {
    e & PAGE_WRITABLE == PAGE_WRITABLE
}

/// True iff entry `e` has its user-accessible bit set.
pub open spec fn entry_user(e: u64) -> bool {
    e & PAGE_USER == PAGE_USER
}

/// The physical address an entry points to.
pub open spec fn entry_addr(e: u64) -> u64 {
    e & ENTRY_ADDR_MASK
}

/// The low flag bits of an entry.
pub open spec fn entry_flags(e: u64) -> u64 {
    e & 0xFFF
}

/// Index into the level-4 (root) table for virtual address `v`.
pub open spec fn l4_index(v: u64) -> u64 {
    (v >> 39) & 0x1FF
}

/// Index into the level-3 table for virtual address `v`.
pub open spec fn l3_index(v: u64) -> u64 {
    (v >> 30) & 0x1FF
}

/// Index into the level-2 table for virtual address `v`.
pub open spec fn l2_index(v: u64) -> u64 {
    (v >> 21) & 0x1FF
}

/// Index into the level-1 (leaf) table for virtual address `v`.
pub open spec fn l1_index(v: u64) -> u64 {
    (v >> 12) & 0x1FF
}

/// Offset of `v` inside its page.
pub open spec fn page_offset(v: u64) -> u64 {
    v & 0xFFF
}

/// Base address of the page containing `v`.
pub open spec fn page_base(v: u64) -> u64 {
    v & !0xFFFu64
}

/// True iff the page-table walk treats `v` and `w` as the same page: all
/// four table indices agree. (The walk ignores the sign-extension bits
/// above bit 47, as the hardware tree does.)
pub open spec fn same_page(v: u64, w: u64) -> bool {
    &&& l4_index(v) == l4_index(w)
    &&& l3_index(v) == l3_index(w)
    &&& l2_index(v) == l2_index(w)
    &&& l1_index(v) == l1_index(w)
}

/// Addresses on the same page base walk to the same leaf entry.
pub proof fn lemma_page_base_same_indices(v: u64, w: u64)
    by (bit_vector)
    ensures
        page_base(v) == page_base(w) ==> same_page(v, w),
        same_page(v, page_base(v)),
{
}

/// Bounds of the index and offset extractors.
pub proof fn lemma_index_bounds(v: u64)
    by (bit_vector)
    ensures
        l4_index(v) < 512,
        l3_index(v) < 512,
        l2_index(v) < 512,
        l1_index(v) < 512,
        page_offset(v) < 4096,
        page_base(v) <= v,
        page_base(v) % 4096 == 0,
        page_base(v) + page_offset(v) == v,
        page_base(v) == v - page_offset(v),
        page_base(v) == (v / 4096) * 4096,
        page_offset(v) == v % 4096,
{
}

/// Page bases follow address order.
pub proof fn lemma_page_base_monotonic(x: u64, y: u64)
    by (bit_vector)
    requires
        x <= y,
    ensures
        page_base(x) <= page_base(y),
{
}

/// Rounding an address up to the next page boundary, as the masked form
/// computes it.
pub proof fn lemma_page_round_up(x: u64)
    by (bit_vector)
    requires
        x <= 0xFFFF_FFFF_FFFF_F000,
    ensures
        ((x + 0xFFF) as u64) & !0xFFFu64 == (((x + 0xFFF) as u64) / 4096) * 4096,
        (((x + 0xFFF) as u64) & !0xFFFu64) % 4096 == 0,
{
}

/// An entry built from a frame-aligned address and low flag bits decomposes
/// back into exactly those parts.
pub proof fn lemma_make_entry(addr: u64, flags: u64)
    by (bit_vector)
    requires
        addr % 4096 == 0,
        addr & ENTRY_ADDR_MASK == addr,
        flags & 0xFFF == flags,
    ensures
        entry_addr(addr | flags) == addr,
        entry_flags(addr | flags) == flags,
        entry_present(addr | flags) == (flags & PAGE_PRESENT == PAGE_PRESENT),
        entry_writable(addr | flags) == (flags & PAGE_WRITABLE == PAGE_WRITABLE),
        entry_user(addr | flags) == (flags & PAGE_USER == PAGE_USER),
{
}

/// What an entry's address field can look like.
pub proof fn lemma_entry_addr_props(e: u64)
    by (bit_vector)
    ensures
        entry_addr(e) % 4096 == 0,
        entry_addr(e) & ENTRY_ADDR_MASK == entry_addr(e),
        entry_addr(e) <= 0x000F_FFFF_FFFF_F000,
        entry_flags(e) & 0xFFF == entry_flags(e),
        entry_present(e) == (entry_flags(e) & PAGE_PRESENT == PAGE_PRESENT),
        entry_present(entry_flags(e)) == entry_present(e),
        entry_writable(entry_flags(e)) == entry_writable(e),
        entry_user(entry_flags(e)) == entry_user(e),
        !entry_present(0),
        !entry_user(0),
        !entry_writable(0),
{
}

/// The level-4 entry on `v`'s path from `root`, when the root table
/// exists in the arena.
pub open spec fn l4e(m: Map<u64, (nat, Seq<u64>)>, root: u64, v: u64) -> Option<u64> {
    if m.contains_key(root) {
        Some(tentry(m, root, l4_index(v) as int))
    } else {
        None
    }
}

/// The level-3 entry on `v`'s path, reached through a present level-4
/// entry whose target table exists.
pub open spec fn l3e(m: Map<u64, (nat, Seq<u64>)>, root: u64, v: u64) -> Option<u64> {
    match l4e(m, root, v) {
        Some(e4) => if entry_present(e4) && m.contains_key(entry_addr(e4)) {
            Some(tentry(m, entry_addr(e4), l3_index(v) as int))
        } else {
            None
        },
        None => None,
    }
}

/// The level-2 entry on `v`'s path.
pub open spec fn l2e(m: Map<u64, (nat, Seq<u64>)>, root: u64, v: u64) -> Option<u64> {
    match l3e(m, root, v) {
        Some(e3) => if entry_present(e3) && m.contains_key(entry_addr(e3)) {
            Some(tentry(m, entry_addr(e3), l2_index(v) as int))
        } else {
            None
        },
        None => None,
    }
}

/// The leaf (level-1) entry on `v`'s path.
pub open spec fn l1e(m: Map<u64, (nat, Seq<u64>)>, root: u64, v: u64) -> Option<u64> {
    match l2e(m, root, v) {
        Some(e2) => if entry_present(e2) && m.contains_key(entry_addr(e2)) {
            Some(tentry(m, entry_addr(e2), l1_index(v) as int))
        } else {
            None
        },
        None => None,
    }
}

/// The physical address `v` translates to under `root`: the frame named by
/// a present leaf entry, plus the in-page offset.
pub open spec fn translate_spec(m: Map<u64, (nat, Seq<u64>)>, root: u64, v: u64) -> Option<u64> {
    match l1e(m, root, v) {
        Some(e1) => if entry_present(e1) {
            Some((entry_addr(e1) + page_offset(v)) as u64)
        } else {
            None
        },
        None => None,
    }
}

/// True iff every level of `v`'s path is present and user-accessible —
/// the hardware's AND-of-permissions rule.
pub open spec fn user_path_ok(m: Map<u64, (nat, Seq<u64>)>, root: u64, v: u64) -> bool {
    &&& l4e(m, root, v) matches Some(e4) && entry_present(e4) && entry_user(e4)
    &&& l3e(m, root, v) matches Some(e3) && entry_present(e3) && entry_user(e3)
    &&& l2e(m, root, v) matches Some(e2) && entry_present(e2) && entry_user(e2)
    &&& l1e(m, root, v) matches Some(e1) && entry_present(e1) && entry_user(e1)
}

/// The leaf entry's flags, visible to user mode only when the whole path
/// is present and user-accessible.
pub open spec fn user_leaf_flags(m: Map<u64, (nat, Seq<u64>)>, root: u64, v: u64) -> Option<u64> {
    if user_path_ok(m, root, v) {
        Some(entry_flags(l1e(m, root, v)->Some_0))
    } else {
        None
    }
}

/// The flag bits of a present leaf entry on `v`'s path, regardless of
/// the ancestors' permission bits.
pub open spec fn present_leaf_flags(m: Map<u64, (nat, Seq<u64>)>, root: u64, v: u64) -> Option<
    u64,
> {
    match l1e(m, root, v) {
        Some(e) => if entry_present(e) {
            Some(entry_flags(e))
        } else {
            None
        },
        None => None,
    }
}

/// First virtual address above the user half of the address space.
pub const USER_SPACE_END: u64 = 0x0000_8000_0000_0000;

/// True iff `[addr, addr + len)` lies in the user half and every page it
/// touches is present and user-accessible at all four levels.
pub open spec fn user_range_readable(
    m: Map<u64, (nat, Seq<u64>)>,
    root: u64,
    addr: u64,
    len: u64,
) -> bool {
    &&& addr < USER_SPACE_END
    &&& addr + len < USER_SPACE_END
    &&& forall|p: int|
        addr as int / 4096 <= p < (addr + len + 4095) / 4096 ==> #[trigger] user_path_ok(
            m,
            root,
            (p * 4096) as u64,
        )
}

/// Like `user_range_readable`, and every page's leaf entry is writable.
pub open spec fn user_range_writable(
    m: Map<u64, (nat, Seq<u64>)>,
    root: u64,
    addr: u64,
    len: u64,
) -> bool {
    &&& addr < USER_SPACE_END
    &&& addr + len < USER_SPACE_END
    &&& forall|p: int|
        addr as int / 4096 <= p < (addr + len + 4095) / 4096 ==> #[trigger] user_path_ok(
            m,
            root,
            (p * 4096) as u64,
        ) && entry_writable(l1e(m, root, (p * 4096) as u64)->Some_0)
}

/// The walk only reads the four indices, so addresses of one page share
/// every level's entry.
pub proof fn lemma_same_page_same_walk(
    m: Map<u64, (nat, Seq<u64>)>,
    root: u64,
    v: u64,
    w: u64,
)
    requires
        same_page(v, w),
    ensures
        l4e(m, root, v) == l4e(m, root, w),
        l3e(m, root, v) == l3e(m, root, w),
        l2e(m, root, v) == l2e(m, root, w),
        l1e(m, root, v) == l1e(m, root, w),
        user_path_ok(m, root, v) == user_path_ok(m, root, w),
        user_leaf_flags(m, root, v) == user_leaf_flags(m, root, w),
        present_leaf_flags(m, root, v) == present_leaf_flags(m, root, w),
{
}

/// Distinct page-aligned addresses below the canonical boundary are on
/// distinct pages of the walk.
pub proof fn lemma_low_pages_distinct(v: u64, w: u64)
    by (bit_vector)
    requires
        v % 4096 == 0,
        w % 4096 == 0,
        v != w,
        v < 0x1_0000_0000_0000,
        w < 0x1_0000_0000_0000,
    ensures
        !same_page(v, w),
{
}

/// Law: a missing user-accessible bit at any level of the path to a page
/// revokes user access to the whole page — the range checks are false for
/// every range that touches the page, no matter what the leaf entry says.
pub proof fn lemma_permission_monotonicity(
    m: Map<u64, (nat, Seq<u64>)>,
    root: u64,
    addr: u64,
    len: u64,
    v: u64,
)
    requires
        addr as int / 4096 <= v as int / 4096 < (addr + len + 4095) / 4096,
        ({
            ||| (l4e(m, root, v) matches Some(e4) && !entry_user(e4))
            ||| (l3e(m, root, v) matches Some(e3) && !entry_user(e3))
            ||| (l2e(m, root, v) matches Some(e2) && !entry_user(e2))
            ||| (l1e(m, root, v) matches Some(e1) && !entry_user(e1))
        }),
    ensures
        !user_range_readable(m, root, addr, len),
        !user_range_writable(m, root, addr, len),
{
    assert(!user_path_ok(m, root, v));
    let p = v as int / 4096;
    lemma_index_bounds(v);
    vstd::arithmetic::div_mod::lemma_div_by_multiple(p, 4096);
    assert((p * 4096) as u64 == page_base(v));
    lemma_page_base_same_indices(v, v);
    lemma_same_page_same_walk(m, root, page_base(v), v);
    assert(!user_path_ok(m, root, (p * 4096) as u64));
    if user_range_readable(m, root, addr, len) {
        assert(user_path_ok(m, root, (p * 4096) as u64));
    }
    if user_range_writable(m, root, addr, len) {
        assert(user_path_ok(m, root, (p * 4096) as u64));
    }
}

/// One page table: a frame-aligned physical address, the level it sits at
/// in the radix tree (4 is the root, 1 holds the leaf entries), and its 512
/// entries.
struct TableNode {
    frame: u64,
    level: usize,
    entries: Vec<u64>,
}

/// The arena of page-table nodes: all tables of all address spaces, keyed
/// by the physical frame address of each table.
pub struct PageTables {
    nodes: Vec<TableNode>,
}

/// A freshly zeroed table: 512 absent entries.
pub open spec fn zero_table() -> Seq<u64> {
    Seq::new(512, |i: int| 0u64)
}

/// The entry of table `f` at index `i` in view `m`.
pub open spec fn tentry(m: Map<u64, (nat, Seq<u64>)>, f: u64, i: int) -> u64 {
    m[f].1[i]
}

/// The level of table `f` in view `m`.
pub open spec fn tlevel(m: Map<u64, (nat, Seq<u64>)>, f: u64) -> nat {
    m[f].0
}

impl PageTables {
    /// The arena as a map from a table's frame address to its level and
    /// entries.
    pub closed spec fn view(self) -> Map<u64, (nat, Seq<u64>)> {
        Map::new(
            |f: u64| exists|i: int| 0 <= i < self.nodes@.len() && self.nodes@[i].frame == f,
            |f: u64|
                {
                    let i = choose|i: int| 0 <= i < self.nodes@.len() && self.nodes@[i].frame == f;
                    (self.nodes@[i].level as nat, self.nodes@[i].entries@)
                },
        )
    }

    /// Structural invariant of the arena: distinct frame-aligned frames,
    /// 512 entries each, levels between 1 and 4.
    pub closed spec fn wf(self) -> bool {
        &&& forall|i: int, j: int|
            0 <= i < j < self.nodes@.len() ==> (#[trigger] self.nodes@[i]).frame != (
            #[trigger] self.nodes@[j]).frame
        &&& forall|i: int|
            0 <= i < self.nodes@.len() ==> (#[trigger] self.nodes@[i]).entries@.len() == 512
        &&& forall|i: int|
            0 <= i < self.nodes@.len() ==> 1 <= (#[trigger] self.nodes@[i]).level <= 4
        &&& forall|i: int|
            0 <= i < self.nodes@.len() ==> (#[trigger] self.nodes@[i]).frame % 4096 == 0 && self
                .nodes@[i].frame & ENTRY_ADDR_MASK == self.nodes@[i].frame
    }

    /// An empty arena.
    pub fn new() -> (r: PageTables)
        ensures
            r.wf(),
            r@ == Map::<u64, (nat, Seq<u64>)>::empty(),
    {
        let r = PageTables { nodes: Vec::new() };
        proof {
            assert(r@ =~= Map::<u64, (nat, Seq<u64>)>::empty());
        }
        r
    }

    proof fn lemma_node_in_view(self, i: int)
        requires
            self.wf(),
            0 <= i < self.nodes@.len(),
        ensures
            self@.contains_key(self.nodes@[i].frame),
            tlevel(self@, self.nodes@[i].frame) == self.nodes@[i].level,
            self@[self.nodes@[i].frame].1 == self.nodes@[i].entries@,
    {
        let f = self.nodes@[i].frame;
        assert(self@.contains_key(f));
        let j = choose|j: int| 0 <= j < self.nodes@.len() && self.nodes@[j].frame == f;
        if i < j {
            assert(self.nodes@[i].frame != self.nodes@[j].frame);
        }
        if j < i {
            assert(self.nodes@[j].frame != self.nodes@[i].frame);
        }
    }

    /// What the arena invariant says of every table in the view.
    pub proof fn lemma_view_wf(self)
        requires
            self.wf(),
        ensures
            forall|f: u64|
                #[trigger] self@.contains_key(f) ==> self@[f].1.len() == 512 && 1 <= tlevel(
                    self@,
                    f,
                ) <= 4 && f % 4096 == 0 && f & ENTRY_ADDR_MASK == f,
    {
        assert forall|f: u64| #[trigger] self@.contains_key(f) implies self@[f].1.len() == 512 && 1
            <= tlevel(self@, f) <= 4 && f % 4096 == 0 && f & ENTRY_ADDR_MASK == f by {
            let i = choose|i: int| 0 <= i < self.nodes@.len() && self.nodes@[i].frame == f;
            self.lemma_node_in_view(i);
        }
    }

    /// Looks a table up by its frame address.
    fn find_node(&self, frame: u64) -> (r: Option<usize>)
        requires
            self.wf(),
        ensures
            match r {
                Some(i) => i < self.nodes@.len() && self.nodes@[i as int].frame == frame
                    && self@.contains_key(frame),
                None => !self@.contains_key(frame),
            },
    {
        let n = self.nodes.len();
        for i in 0..n
            invariant
                n == self.nodes@.len(),
                self.wf(),
                forall|j: int| 0 <= j < i ==> (#[trigger] self.nodes@[j]).frame != frame,
        {
            if self.nodes[i].frame == frame {
                proof {
                    self.lemma_node_in_view(i as int);
                }
                return Some(i);
            }
        }
        proof {
            if self@.contains_key(frame) {
                let i = choose|i: int|
                    0 <= i < self.nodes@.len() && self.nodes@[i].frame == frame;
                assert(self.nodes@[i].frame != frame);
            }
        }
        None
    }

    /// True iff the arena holds a table at `frame`.
    pub fn contains(&self, frame: u64) -> (r: bool)
        requires
            self.wf(),
        ensures
            r == self@.contains_key(frame),
    {
        self.find_node(frame).is_some()
    }

    /// Reads entry `idx` of the table at `frame`.
    pub fn read_entry(&self, frame: u64, idx: usize) -> (r: u64)
        requires
            self.wf(),
            self@.contains_key(frame),
            idx < 512,
        ensures
            r == tentry(self@, frame, idx as int),
    {
        let i = match self.find_node(frame) {
            Some(i) => i,
            None => {
                proof {
                    assert(false);
                }
                0
            },
        };
        proof {
            self.lemma_node_in_view(i as int);
        }
        self.nodes[i].entries[idx]
    }

    /// Overwrites entry `idx` of the table at `frame`.
    pub fn write_entry(&mut self, frame: u64, idx: usize, value: u64)
        requires
            old(self).wf(),
            old(self)@.contains_key(frame),
            idx < 512,
        ensures
            final(self).wf(),
            final(self)@ == old(self)@.insert(
                frame,
                (tlevel(old(self)@, frame), old(self)@[frame].1.update(idx as int, value)),
            ),
    {
        let i = match self.find_node(frame) {
            Some(i) => i,
            None => {
                proof {
                    assert(false);
                }
                0
            },
        };
        proof {
            self.lemma_node_in_view(i as int);
        }
        self.nodes[i].entries[idx] = value;
        proof {
            let m2 = old(self)@.insert(
                frame,
                (tlevel(old(self)@, frame), old(self)@[frame].1.update(idx as int, value)),
            );
            assert(self.nodes@.len() == old(self).nodes@.len());
            assert(self.nodes@[i as int].frame == frame);
            assert(self.nodes@[i as int].level == old(self).nodes@[i as int].level);
            assert(self.nodes@[i as int].entries@ == old(self).nodes@[i as int].entries@.update(
                idx as int,
                value,
            ));
            assert(forall|j: int|
                0 <= j < self.nodes@.len() && j != i ==> self.nodes@[j] == old(self).nodes@[j]);
            assert forall|g: u64| self@.contains_key(g) == m2.contains_key(g) by {
                if self@.contains_key(g) {
                    let k = choose|k: int|
                        0 <= k < self.nodes@.len() && self.nodes@[k].frame == g;
                    assert(old(self).nodes@[k].frame == g);
                    assert(old(self)@.contains_key(g));
                }
                if old(self)@.contains_key(g) {
                    let k = choose|k: int|
                        0 <= k < old(self).nodes@.len() && old(self).nodes@[k].frame == g;
                    assert(self.nodes@[k].frame == g);
                    assert(self@.contains_key(g));
                }
            }
            assert forall|g: u64| self@.contains_key(g) implies #[trigger] self@[g] == m2[g] by {
                let k = choose|k: int| 0 <= k < self.nodes@.len() && self.nodes@[k].frame == g;
                if g == frame {
                    if k != i {
                        assert(old(self).nodes@[k].frame == old(self).nodes@[i as int].frame);
                        assert(false);
                    }
                    self.lemma_node_in_view(i as int);
                } else {
                    assert(k != i);
                    assert(self.nodes@[k] == old(self).nodes@[k]);
                    old(self).lemma_node_in_view(k);
                    self.lemma_node_in_view(k);
                }
            }
            assert(self@ =~= m2);
        }
    }

    /// Adds a zeroed table at a frame the arena does not yet hold.
    pub fn insert_table(&mut self, frame: u64, level: usize)
        requires
            old(self).wf(),
            !old(self)@.contains_key(frame),
            1 <= level <= 4,
            frame % 4096 == 0,
            frame & ENTRY_ADDR_MASK == frame,
        ensures
            final(self).wf(),
            final(self)@ == old(self)@.insert(frame, (level as nat, Seq::new(512, |i: int| 0u64))),
    {
        let mut entries: Vec<u64> = Vec::new();
        while entries.len() < 512
            invariant
                entries@.len() <= 512,
                forall|k: int| 0 <= k < entries@.len() ==> entries@[k] == 0u64,
            decreases 512 - entries.len(),
        {
            entries.push(0);
        }
        proof {
            assert(entries@ =~= Seq::new(512, |i: int| 0u64));
        }
        self.nodes.push(TableNode { frame, level, entries });
        proof {
            let m2 = old(self)@.insert(frame, (level as nat, Seq::new(512, |i: int| 0u64)));
            let n = self.nodes@.len() - 1;
            assert(self.nodes@[n].frame == frame);
            assert(forall|j: int| 0 <= j < n ==> self.nodes@[j] == old(self).nodes@[j]);
            assert forall|g: u64| self@.contains_key(g) == m2.contains_key(g) by {
                if self@.contains_key(g) {
                    let k = choose|k: int|
                        0 <= k < self.nodes@.len() && self.nodes@[k].frame == g;
                    if k != n {
                        assert(old(self).nodes@[k].frame == g);
                        assert(old(self)@.contains_key(g));
                    }
                }
                if old(self)@.contains_key(g) {
                    let k = choose|k: int|
                        0 <= k < old(self).nodes@.len() && old(self).nodes@[k].frame == g;
                    assert(self.nodes@[k].frame == g);
                    assert(self@.contains_key(g));
                }
                if g == frame {
                    assert(self.nodes@[n].frame == g);
                    assert(self@.contains_key(g));
                }
            }
            assert forall|g: u64| self@.contains_key(g) implies #[trigger] self@[g] == m2[g] by {
                let k = choose|k: int| 0 <= k < self.nodes@.len() && self.nodes@[k].frame == g;
                if g == frame {
                    if k != n {
                        assert(self.nodes@[k] == old(self).nodes@[k]);
                        old(self).lemma_node_in_view(k);
                        assert(false);
                    }
                } else {
                    assert(k != n);
                    assert(self.nodes@[k] == old(self).nodes@[k]);
                    old(self).lemma_node_in_view(k);
                    self.lemma_node_in_view(k);
                }
            }
            assert(self@ =~= m2);
        }
    }
}

} // verus!
