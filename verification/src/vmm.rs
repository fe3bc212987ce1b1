//! Virtual memory manager: owns the frame allocator, the page-table
//! arena, the set of address-space roots and the modelled RAM, and
//! performs every mapping operation on them.

use vstd::prelude::*;
use crate::paging::{
    PageTables, tentry, tlevel, entry_present, entry_writable, entry_user, entry_addr, zero_table,
    entry_flags, l4_index, l3_index, l2_index, l1_index, page_offset, page_base, same_page,
    l4e, l3e, l2e, l1e, translate_spec, user_path_ok, user_leaf_flags, present_leaf_flags,
    user_range_readable,
    user_range_writable, lemma_index_bounds, lemma_entry_addr_props, lemma_make_entry,
    lemma_page_base_same_indices, lemma_same_page_same_walk, lemma_page_round_up, PAGE_PRESENT, PAGE_WRITABLE,
    PAGE_USER, ENTRY_ADDR_MASK, USER_SPACE_END,
};
use crate::pmm::{BitmapAllocator, MemRegion, bitmap_init_ok, init_frame_used, max_region_end};
use crate::ram::{RamStore, phys_byte};

verus! {

/// Base of the region kernel stacks are carved from.
pub const KERNEL_STACK_REGION: u64 = 0xFFFF_F000_0000_0000;

/// Why a memory operation failed.
#[derive(Clone, Copy, PartialEq, Eq, Structural, Debug)]
pub enum MemError {
    /// The page already has a present leaf entry.
    AlreadyMapped,
    /// The walk found no present mapping to operate on.
    NotMapped,
    /// The frame allocator is exhausted.
    OutOfFrames,
    /// A size argument that the operation cannot work with.
    InvalidSize,
}

/// Tree shape of the whole arena: present entries of tables above the
/// leaf level point one level down into the arena, lower tables are never
/// shared, and two roots share a child only at the same kernel-half slot.
pub open spec fn wf_tree(m: Map<u64, (nat, Seq<u64>)>) -> bool {
    &&& forall|f: u64, i: int|
        #![trigger tentry(m, f, i)]
        m.contains_key(f) && tlevel(m, f) >= 2 && 0 <= i < 512 && entry_present(tentry(m, f, i))
            ==> m.contains_key(entry_addr(tentry(m, f, i))) && tlevel(
            m,
            entry_addr(tentry(m, f, i)),
        ) == (tlevel(m, f) - 1) as nat
    &&& forall|f1: u64, i1: int, f2: u64, i2: int|
        #![trigger tentry(m, f1, i1), tentry(m, f2, i2)]
        m.contains_key(f1) && m.contains_key(f2) && 2 <= tlevel(m, f1) <= 3 && 2 <= tlevel(m, f2)
            <= 3 && 0 <= i1 < 512 && 0 <= i2 < 512 && entry_present(tentry(m, f1, i1))
            && entry_present(tentry(m, f2, i2)) && entry_addr(tentry(m, f1, i1)) == entry_addr(
            tentry(m, f2, i2),
        ) ==> f1 == f2 && i1 == i2
    &&& forall|f1: u64, i1: int, f2: u64, i2: int|
        #![trigger tentry(m, f1, i1), tentry(m, f2, i2)]
        m.contains_key(f1) && m.contains_key(f2) && tlevel(m, f1) == 4 && tlevel(m, f2) == 4 && 0
            <= i1 < 512 && 0 <= i2 < 512 && entry_present(tentry(m, f1, i1)) && entry_present(
            tentry(m, f2, i2),
        ) && entry_addr(tentry(m, f1, i1)) == entry_addr(tentry(m, f2, i2)) ==> i1 == i2 && (f1
            == f2 || i1 >= 256)
}

/// The arena after hanging a fresh zeroed table `c` off `parent`'s entry
/// `idx`, the entry marked present, writable and user-accessible.
pub open spec fn extend_map(
    m: Map<u64, (nat, Seq<u64>)>,
    parent: u64,
    idx: int,
    c: u64,
    lvl_c: nat,
) -> Map<u64, (nat, Seq<u64>)> {
    m.insert(c, (lvl_c, zero_table())).insert(
        parent,
        (tlevel(m, parent), m[parent].1.update(idx, c | 7u64)),
    )
}

/// The arena after overwriting entry `i1` of the leaf table `t1`.
pub open spec fn leaf_write_map(m: Map<u64, (nat, Seq<u64>)>, t1: u64, i1: int, e: u64) -> Map<
    u64,
    (nat, Seq<u64>),
> {
    m.insert(t1, (tlevel(m, t1), m[t1].1.update(i1, e)))
}

/// Every table of the view has 512 entries and a level between 1 and 4.
pub open spec fn wf_views(m: Map<u64, (nat, Seq<u64>)>) -> bool {
    forall|f: u64|
        #[trigger] m.contains_key(f) ==> m[f].1.len() == 512 && 1 <= tlevel(m, f) <= 4
}

proof fn lemma_extend_bridge(m: Map<u64, (nat, Seq<u64>)>, parent: u64, idx: int, c: u64, lvl_c: nat)
    requires
        m.contains_key(parent),
        !m.contains_key(c),
        0 <= idx < 512,
        m[parent].1.len() == 512,
    ensures
        ({
            let m2 = extend_map(m, parent, idx, c, lvl_c);
            &&& forall|f: u64| #[trigger] m2.contains_key(f) == (m.contains_key(f) || f == c)
            &&& tlevel(m2, c) == lvl_c
            &&& m2[c].1 == zero_table()
            &&& forall|f: u64|
                m.contains_key(f) ==> #[trigger] tlevel(m2, f) == tlevel(m, f)
            &&& forall|f: u64, i: int|
                m.contains_key(f) && 0 <= i < 512 && !(f == parent && i == idx) ==> #[trigger] tentry(
                    m2,
                    f,
                    i,
                ) == tentry(m, f, i)
            &&& tentry(m2, parent, idx) == (c | 7u64)
            &&& forall|i: int| 0 <= i < 512 ==> #[trigger] tentry(m2, c, i) == 0u64
        }),
{
    let m2 = extend_map(m, parent, idx, c, lvl_c);
    assert(c != parent);
    assert forall|i: int| 0 <= i < 512 implies #[trigger] tentry(m2, c, i) == 0u64 by {
        assert(m2[c].1 == zero_table());
    }
}

/// Extending the tree with a fresh zeroed table keeps it a tree.
proof fn lemma_wf_tree_extend(m: Map<u64, (nat, Seq<u64>)>, parent: u64, idx: int, c: u64, lvl_c: nat)
    requires
        wf_tree(m),
        wf_views(m),
        m.contains_key(parent),
        2 <= tlevel(m, parent) <= 4,
        0 <= idx < 512,
        !entry_present(tentry(m, parent, idx)),
        !m.contains_key(c),
        lvl_c == (tlevel(m, parent) - 1) as nat,
        c % 4096 == 0,
        c & ENTRY_ADDR_MASK == c,
    ensures
        wf_tree(extend_map(m, parent, idx, c, lvl_c)),
        wf_views(extend_map(m, parent, idx, c, lvl_c)),
{
    let m2 = extend_map(m, parent, idx, c, lvl_c);
    lemma_extend_bridge(m, parent, idx, c, lvl_c);
    assert(7u64 & 0xFFF == 7u64 && 7u64 & 1 == 1u64 && 7u64 & 2 == 2u64 && 7u64 & 4 == 4u64)
        by (bit_vector);
    lemma_make_entry(c, 7);
    lemma_entry_addr_props(0);
    let enew = c | 7u64;
    assert(entry_addr(enew) == c && entry_present(enew) && entry_writable(enew) && entry_user(
        enew,
    ));
    assert forall|f: u64, i: int|
        #![trigger tentry(m2, f, i)]
        m2.contains_key(f) && tlevel(m2, f) >= 2 && 0 <= i < 512 && entry_present(
            tentry(m2, f, i),
        ) implies m2.contains_key(entry_addr(tentry(m2, f, i))) && tlevel(
        m2,
        entry_addr(tentry(m2, f, i)),
    ) == (tlevel(m2, f) - 1) as nat by {
        if f == c {
            assert(tentry(m2, f, i) == 0u64);
            assert(false);
        } else if f == parent && i == idx {
            assert(tentry(m2, f, i) == enew);
        } else {
            assert(tentry(m2, f, i) == tentry(m, f, i));
            assert(m.contains_key(entry_addr(tentry(m, f, i))));
            assert(entry_addr(tentry(m, f, i)) != c);
        }
    }
    assert forall|f1: u64, i1: int, f2: u64, i2: int|
        #![trigger tentry(m2, f1, i1), tentry(m2, f2, i2)]
        m2.contains_key(f1) && m2.contains_key(f2) && 2 <= tlevel(m2, f1) <= 3 && 2 <= tlevel(
            m2,
            f2,
        ) <= 3 && 0 <= i1 < 512 && 0 <= i2 < 512 && entry_present(tentry(m2, f1, i1))
            && entry_present(tentry(m2, f2, i2)) && entry_addr(tentry(m2, f1, i1)) == entry_addr(
            tentry(m2, f2, i2),
        ) implies f1 == f2 && i1 == i2 by {
        if f1 == c || f2 == c {
            assert(false);
        } else {
            let new1 = f1 == parent && i1 == idx;
            let new2 = f2 == parent && i2 == idx;
            if new1 && new2 {
            } else if new1 {
                assert(tentry(m2, f2, i2) == tentry(m, f2, i2));
                assert(m.contains_key(entry_addr(tentry(m, f2, i2))));
                assert(false);
            } else if new2 {
                assert(tentry(m2, f1, i1) == tentry(m, f1, i1));
                assert(m.contains_key(entry_addr(tentry(m, f1, i1))));
                assert(false);
            } else {
                assert(tentry(m2, f1, i1) == tentry(m, f1, i1));
                assert(tentry(m2, f2, i2) == tentry(m, f2, i2));
            }
        }
    }
    assert forall|f1: u64, i1: int, f2: u64, i2: int|
        #![trigger tentry(m2, f1, i1), tentry(m2, f2, i2)]
        m2.contains_key(f1) && m2.contains_key(f2) && tlevel(m2, f1) == 4 && tlevel(m2, f2) == 4
            && 0 <= i1 < 512 && 0 <= i2 < 512 && entry_present(tentry(m2, f1, i1))
            && entry_present(tentry(m2, f2, i2)) && entry_addr(tentry(m2, f1, i1)) == entry_addr(
            tentry(m2, f2, i2),
        ) implies i1 == i2 && (f1 == f2 || i1 >= 256) by {
        if f1 == c || f2 == c {
            assert(false);
        } else {
            let new1 = f1 == parent && i1 == idx;
            let new2 = f2 == parent && i2 == idx;
            if new1 && new2 {
            } else if new1 {
                assert(tentry(m2, f2, i2) == tentry(m, f2, i2));
                assert(m.contains_key(entry_addr(tentry(m, f2, i2))));
                assert(false);
            } else if new2 {
                assert(tentry(m2, f1, i1) == tentry(m, f1, i1));
                assert(m.contains_key(entry_addr(tentry(m, f1, i1))));
                assert(false);
            } else {
                assert(tentry(m2, f1, i1) == tentry(m, f1, i1));
                assert(tentry(m2, f2, i2) == tentry(m, f2, i2));
            }
        }
    }
}

/// Hanging a fresh zeroed table off an absent entry changes no
/// translation and no user path, from any root.
proof fn lemma_extend_preserves_walks(
    m: Map<u64, (nat, Seq<u64>)>,
    parent: u64,
    idx: int,
    c: u64,
    lvl_c: nat,
    r2: u64,
    w: u64,
)
    requires
        wf_tree(m),
        wf_views(m),
        m.contains_key(parent),
        2 <= tlevel(m, parent) <= 4,
        0 <= idx < 512,
        !entry_present(tentry(m, parent, idx)),
        !m.contains_key(c),
        lvl_c == (tlevel(m, parent) - 1) as nat,
        c % 4096 == 0,
        c & ENTRY_ADDR_MASK == c,
        m.contains_key(r2),
        tlevel(m, r2) == 4,
    ensures
        ({
            let m2 = extend_map(m, parent, idx, c, lvl_c);
            &&& translate_spec(m2, r2, w) == translate_spec(m, r2, w)
            &&& user_path_ok(m2, r2, w) == user_path_ok(m, r2, w)
            &&& user_leaf_flags(m2, r2, w) == user_leaf_flags(m, r2, w)
            &&& present_leaf_flags(m2, r2, w) == present_leaf_flags(m, r2, w)
        }),
{
    let m2 = extend_map(m, parent, idx, c, lvl_c);
    lemma_extend_bridge(m, parent, idx, c, lvl_c);
    assert(7u64 & 0xFFF == 7u64 && 7u64 & 1 == 1u64 && 7u64 & 2 == 2u64 && 7u64 & 4 == 4u64)
        by (bit_vector);
    lemma_make_entry(c, 7);
    lemma_entry_addr_props(0);
    lemma_index_bounds(w);
    let enew = c | 7u64;
    let i4 = l4_index(w) as int;
    let i3 = l3_index(w) as int;
    let i2 = l2_index(w) as int;
    let i1 = l1_index(w) as int;
    if r2 == parent && i4 == idx {
        assert(tentry(m2, r2, i4) == enew);
        assert(l3e(m2, r2, w) == Some(tentry(m2, c, i3)));
        assert(tentry(m2, c, i3) == 0u64);
        assert(l2e(m2, r2, w) is None);
        assert(l3e(m, r2, w) is None);
    } else {
        assert(tentry(m2, r2, i4) == tentry(m, r2, i4));
        let e4 = tentry(m, r2, i4);
        if entry_present(e4) {
            let t3 = entry_addr(e4);
            assert(m.contains_key(t3));
            if t3 == parent && i3 == idx {
                assert(tentry(m2, t3, i3) == enew);
                assert(l2e(m2, r2, w) == Some(tentry(m2, c, i2)));
                assert(tentry(m2, c, i2) == 0u64);
                assert(l1e(m2, r2, w) is None);
                assert(l2e(m, r2, w) is None);
            } else {
                assert(tentry(m2, t3, i3) == tentry(m, t3, i3));
                let e3 = tentry(m, t3, i3);
                if entry_present(e3) {
                    let t2 = entry_addr(e3);
                    assert(m.contains_key(t2));
                    if t2 == parent && i2 == idx {
                        assert(tentry(m2, t2, i2) == enew);
                        assert(l1e(m2, r2, w) == Some(tentry(m2, c, i1)));
                        assert(tentry(m2, c, i1) == 0u64);
                        assert(l1e(m, r2, w) is None);
                        assert(translate_spec(m2, r2, w) is None);
                        assert(translate_spec(m, r2, w) is None);
                    } else {
                        assert(tentry(m2, t2, i2) == tentry(m, t2, i2));
                        let e2 = tentry(m, t2, i2);
                        if entry_present(e2) {
                            let t1 = entry_addr(e2);
                            assert(m.contains_key(t1));
                            assert(tlevel(m, t1) == 1);
                            assert(t1 != parent);
                            assert(tentry(m2, t1, i1) == tentry(m, t1, i1));
                        }
                    }
                }
            }
        }
    }
}

/// The level-1 table on `v`'s path (meaningful when the full path
/// exists).
pub open spec fn leaf_table(m: Map<u64, (nat, Seq<u64>)>, root: u64, v: u64) -> u64 {
    entry_addr(l2e(m, root, v)->Some_0)
}

proof fn lemma_leaf_write_bridge(m: Map<u64, (nat, Seq<u64>)>, t1: u64, i1: int, e: u64)
    requires
        m.contains_key(t1),
        0 <= i1 < 512,
        m[t1].1.len() == 512,
    ensures
        ({
            let m3 = leaf_write_map(m, t1, i1, e);
            &&& forall|f: u64| #[trigger] m3.contains_key(f) == m.contains_key(f)
            &&& forall|f: u64|
                m.contains_key(f) ==> #[trigger] tlevel(m3, f) == tlevel(m, f)
            &&& forall|f: u64, i: int|
                m.contains_key(f) && 0 <= i < 512 && !(f == t1 && i == i1) ==> #[trigger] tentry(
                    m3,
                    f,
                    i,
                ) == tentry(m, f, i)
            &&& tentry(m3, t1, i1) == e
        }),
{
}

/// Overwriting a leaf-table entry keeps the arena a tree.
proof fn lemma_leaf_write_wf(m: Map<u64, (nat, Seq<u64>)>, t1: u64, i1: int, e: u64)
    requires
        wf_tree(m),
        wf_views(m),
        m.contains_key(t1),
        tlevel(m, t1) == 1,
        0 <= i1 < 512,
    ensures
        wf_tree(leaf_write_map(m, t1, i1, e)),
        wf_views(leaf_write_map(m, t1, i1, e)),
{
    let m3 = leaf_write_map(m, t1, i1, e);
    lemma_leaf_write_bridge(m, t1, i1, e);
    assert forall|f: u64, i: int|
        #![trigger tentry(m3, f, i)]
        m3.contains_key(f) && tlevel(m3, f) >= 2 && 0 <= i < 512 && entry_present(
            tentry(m3, f, i),
        ) implies m3.contains_key(entry_addr(tentry(m3, f, i))) && tlevel(
        m3,
        entry_addr(tentry(m3, f, i)),
    ) == (tlevel(m3, f) - 1) as nat by {
        assert(f != t1);
        assert(tentry(m3, f, i) == tentry(m, f, i));
    }
    assert forall|f1: u64, i1x: int, f2: u64, i2x: int|
        #![trigger tentry(m3, f1, i1x), tentry(m3, f2, i2x)]
        m3.contains_key(f1) && m3.contains_key(f2) && 2 <= tlevel(m3, f1) <= 3 && 2 <= tlevel(
            m3,
            f2,
        ) <= 3 && 0 <= i1x < 512 && 0 <= i2x < 512 && entry_present(tentry(m3, f1, i1x))
            && entry_present(tentry(m3, f2, i2x)) && entry_addr(tentry(m3, f1, i1x)) == entry_addr(
            tentry(m3, f2, i2x),
        ) implies f1 == f2 && i1x == i2x by {
        assert(f1 != t1 && f2 != t1);
        assert(tentry(m3, f1, i1x) == tentry(m, f1, i1x));
        assert(tentry(m3, f2, i2x) == tentry(m, f2, i2x));
    }
    assert forall|f1: u64, i1x: int, f2: u64, i2x: int|
        #![trigger tentry(m3, f1, i1x), tentry(m3, f2, i2x)]
        m3.contains_key(f1) && m3.contains_key(f2) && tlevel(m3, f1) == 4 && tlevel(m3, f2) == 4
            && 0 <= i1x < 512 && 0 <= i2x < 512 && entry_present(tentry(m3, f1, i1x))
            && entry_present(tentry(m3, f2, i2x)) && entry_addr(tentry(m3, f1, i1x)) == entry_addr(
            tentry(m3, f2, i2x),
        ) implies i1x == i2x && (f1 == f2 || i1x >= 256) by {
        assert(f1 != t1 && f2 != t1);
        assert(tentry(m3, f1, i1x) == tentry(m, f1, i1x));
        assert(tentry(m3, f2, i2x) == tentry(m, f2, i2x));
    }
}

/// Overwriting the leaf entry of `virt`'s page changes nothing for any
/// other page of the same address space.
proof fn lemma_leaf_write_other(
    m: Map<u64, (nat, Seq<u64>)>,
    root: u64,
    virt: u64,
    e: u64,
    w: u64,
)
    requires
        wf_tree(m),
        wf_views(m),
        m.contains_key(root),
        tlevel(m, root) == 4,
        l1e(m, root, virt) is Some,
        !same_page(w, virt),
    ensures
        ({
            let m3 = leaf_write_map(m, leaf_table(m, root, virt), l1_index(virt) as int, e);
            &&& translate_spec(m3, root, w) == translate_spec(m, root, w)
            &&& user_path_ok(m3, root, w) == user_path_ok(m, root, w)
            &&& user_leaf_flags(m3, root, w) == user_leaf_flags(m, root, w)
            &&& present_leaf_flags(m3, root, w) == present_leaf_flags(m, root, w)
            &&& l1e(m3, root, w) == l1e(m, root, w)
        }),
{
    lemma_index_bounds(virt);
    lemma_index_bounds(w);
    let i4v = l4_index(virt) as int;
    let i3v = l3_index(virt) as int;
    let i2v = l2_index(virt) as int;
    let i1v = l1_index(virt) as int;
    let e4v = tentry(m, root, i4v);
    let t3v = entry_addr(e4v);
    let e3v = tentry(m, t3v, i3v);
    let t2v = entry_addr(e3v);
    let e2v = tentry(m, t2v, i2v);
    let t1 = entry_addr(e2v);
    assert(entry_present(e4v) && m.contains_key(t3v));
    assert(entry_present(e3v) && m.contains_key(t2v));
    assert(entry_present(e2v) && m.contains_key(t1));
    assert(tlevel(m, t3v) == 3);
    assert(tlevel(m, t2v) == 2);
    assert(tlevel(m, t1) == 1);
    assert(leaf_table(m, root, virt) == t1);
    let m3 = leaf_write_map(m, t1, i1v, e);
    lemma_leaf_write_bridge(m, t1, i1v, e);
    let i4 = l4_index(w) as int;
    let i3 = l3_index(w) as int;
    let i2 = l2_index(w) as int;
    let i1 = l1_index(w) as int;
    assert(root != t1);
    assert(tentry(m3, root, i4) == tentry(m, root, i4));
    let e4 = tentry(m, root, i4);
    if entry_present(e4) {
        let t3w = entry_addr(e4);
        assert(m.contains_key(t3w) && tlevel(m, t3w) == 3);
        assert(t3w != t1);
        assert(tentry(m3, t3w, i3) == tentry(m, t3w, i3));
        let e3 = tentry(m, t3w, i3);
        if entry_present(e3) {
            let t2w = entry_addr(e3);
            assert(m.contains_key(t2w) && tlevel(m, t2w) == 2);
            assert(t2w != t1);
            assert(tentry(m3, t2w, i2) == tentry(m, t2w, i2));
            let e2 = tentry(m, t2w, i2);
            if entry_present(e2) {
                let t1w = entry_addr(e2);
                assert(m.contains_key(t1w) && tlevel(m, t1w) == 1);
                if t1w == t1 {
                    // the two paths share the leaf table, so by the
                    // no-sharing rules they share every ancestor entry,
                    // and only the last index can differ
                    assert(t2w == t2v && i2 == i2v);
                    assert(t3w == t3v && i3 == i3v);
                    assert(i4 == i4v);
                    assert(i1 != i1v);
                    assert(tentry(m3, t1, i1) == tentry(m, t1, i1));
                } else {
                    assert(tentry(m3, t1w, i1) == tentry(m, t1w, i1));
                }
            }
        }
    }
}

/// Overwriting the leaf entry of `virt`'s page makes every address of
/// that page walk to the new entry, through the unchanged ancestors.
proof fn lemma_leaf_write_same(
    m: Map<u64, (nat, Seq<u64>)>,
    root: u64,
    virt: u64,
    e: u64,
    w: u64,
)
    requires
        wf_tree(m),
        wf_views(m),
        m.contains_key(root),
        tlevel(m, root) == 4,
        l1e(m, root, virt) is Some,
        same_page(w, virt),
    ensures
        ({
            let m3 = leaf_write_map(m, leaf_table(m, root, virt), l1_index(virt) as int, e);
            &&& l4e(m3, root, w) == l4e(m, root, virt)
            &&& l3e(m3, root, w) == l3e(m, root, virt)
            &&& l2e(m3, root, w) == l2e(m, root, virt)
            &&& l1e(m3, root, w) == Some(e)
        }),
{
    lemma_index_bounds(virt);
    lemma_index_bounds(w);
    let i4v = l4_index(virt) as int;
    let i3v = l3_index(virt) as int;
    let i2v = l2_index(virt) as int;
    let i1v = l1_index(virt) as int;
    let e4v = tentry(m, root, i4v);
    let t3v = entry_addr(e4v);
    let e3v = tentry(m, t3v, i3v);
    let t2v = entry_addr(e3v);
    let e2v = tentry(m, t2v, i2v);
    let t1 = entry_addr(e2v);
    assert(entry_present(e4v) && m.contains_key(t3v));
    assert(entry_present(e3v) && m.contains_key(t2v));
    assert(entry_present(e2v) && m.contains_key(t1));
    assert(tlevel(m, t3v) == 3);
    assert(tlevel(m, t2v) == 2);
    assert(tlevel(m, t1) == 1);
    let m3 = leaf_write_map(m, t1, i1v, e);
    lemma_leaf_write_bridge(m, t1, i1v, e);
    assert(root != t1 && t3v != t1 && t2v != t1);
    assert(tentry(m3, root, i4v) == e4v);
    assert(tentry(m3, t3v, i3v) == e3v);
    assert(tentry(m3, t2v, i2v) == e2v);
    assert(tentry(m3, t1, i1v) == e);
}

/// Writing an entry of one level-4 table never changes a walk from a
/// different level-4 table: lower tables are never level 4, so the walk
/// never reads the written table.
proof fn lemma_l4_write_other_roots(
    m: Map<u64, (nat, Seq<u64>)>,
    t4: u64,
    i: int,
    e: u64,
    r2: u64,
    w: u64,
)
    requires
        wf_tree(m),
        wf_views(m),
        m.contains_key(t4),
        tlevel(m, t4) == 4,
        m.contains_key(r2),
        tlevel(m, r2) == 4,
        r2 != t4,
        0 <= i < 512,
    ensures
        ({
            let m2 = m.insert(t4, (tlevel(m, t4), m[t4].1.update(i, e)));
            &&& translate_spec(m2, r2, w) == translate_spec(m, r2, w)
            &&& user_path_ok(m2, r2, w) == user_path_ok(m, r2, w)
            &&& user_leaf_flags(m2, r2, w) == user_leaf_flags(m, r2, w)
        }),
{
    let m2 = m.insert(t4, (tlevel(m, t4), m[t4].1.update(i, e)));
    lemma_index_bounds(w);
    let i4 = l4_index(w) as int;
    let i3 = l3_index(w) as int;
    let i2 = l2_index(w) as int;
    let i1 = l1_index(w) as int;
    assert(tentry(m2, r2, i4) == tentry(m, r2, i4));
    let e4 = tentry(m, r2, i4);
    if entry_present(e4) {
        let t3w = entry_addr(e4);
        assert(m.contains_key(t3w) && tlevel(m, t3w) == 3);
        assert(tentry(m2, t3w, i3) == tentry(m, t3w, i3));
        let e3 = tentry(m, t3w, i3);
        if entry_present(e3) {
            let t2w = entry_addr(e3);
            assert(m.contains_key(t2w) && tlevel(m, t2w) == 2);
            assert(tentry(m2, t2w, i2) == tentry(m, t2w, i2));
            let e2 = tentry(m, t2w, i2);
            if entry_present(e2) {
                let t1w = entry_addr(e2);
                assert(m.contains_key(t1w) && tlevel(m, t1w) == 1);
                assert(tentry(m2, t1w, i1) == tentry(m, t1w, i1));
            }
        }
    }
}

/// Adding a fresh table to the arena changes no walk from an existing
/// root: walks only follow present entries, whose targets already belong
/// to the arena.
proof fn lemma_insert_fresh_preserves_walks(
    m: Map<u64, (nat, Seq<u64>)>,
    c: u64,
    lvl: nat,
    r2: u64,
    w: u64,
)
    requires
        wf_tree(m),
        wf_views(m),
        !m.contains_key(c),
        m.contains_key(r2),
        tlevel(m, r2) == 4,
    ensures
        ({
            let m2 = m.insert(c, (lvl, zero_table()));
            &&& translate_spec(m2, r2, w) == translate_spec(m, r2, w)
            &&& user_path_ok(m2, r2, w) == user_path_ok(m, r2, w)
            &&& user_leaf_flags(m2, r2, w) == user_leaf_flags(m, r2, w)
        }),
{
    let m2 = m.insert(c, (lvl, zero_table()));
    lemma_index_bounds(w);
    let i4 = l4_index(w) as int;
    let i3 = l3_index(w) as int;
    let i2 = l2_index(w) as int;
    let i1 = l1_index(w) as int;
    assert(r2 != c);
    assert(tentry(m2, r2, i4) == tentry(m, r2, i4));
    let e4 = tentry(m, r2, i4);
    if entry_present(e4) {
        let t3w = entry_addr(e4);
        assert(m.contains_key(t3w) && tlevel(m, t3w) == 3);
        assert(tentry(m2, t3w, i3) == tentry(m, t3w, i3));
        let e3 = tentry(m, t3w, i3);
        if entry_present(e3) {
            let t2w = entry_addr(e3);
            assert(m.contains_key(t2w) && tlevel(m, t2w) == 2);
            assert(tentry(m2, t2w, i2) == tentry(m, t2w, i2));
            let e2 = tentry(m, t2w, i2);
            if entry_present(e2) {
                let t1w = entry_addr(e2);
                assert(m.contains_key(t1w) && tlevel(m, t1w) == 1);
                assert(tentry(m2, t1w, i1) == tentry(m, t1w, i1));
            }
        }
    }
}

/// Copying a kernel-half entry from one level-4 table into another keeps
/// the arena a tree: sharing at the same upper-half slot is exactly what
/// the tree shape allows.
proof fn lemma_l4_copy_wf(m: Map<u64, (nat, Seq<u64>)>, src: u64, dst: u64, i: int)
    requires
        wf_tree(m),
        wf_views(m),
        m.contains_key(src),
        m.contains_key(dst),
        tlevel(m, src) == 4,
        tlevel(m, dst) == 4,
        src != dst,
        256 <= i < 512,
    ensures
        wf_tree(m.insert(dst, (tlevel(m, dst), m[dst].1.update(i, tentry(m, src, i))))),
        wf_views(m.insert(dst, (tlevel(m, dst), m[dst].1.update(i, tentry(m, src, i))))),
{
    let e = tentry(m, src, i);
    let m2 = m.insert(dst, (tlevel(m, dst), m[dst].1.update(i, e)));
    assert forall|f: u64, ix: int|
        #![trigger tentry(m2, f, ix)]
        m2.contains_key(f) && tlevel(m2, f) >= 2 && 0 <= ix < 512 && entry_present(
            tentry(m2, f, ix),
        ) implies m2.contains_key(entry_addr(tentry(m2, f, ix))) && tlevel(
        m2,
        entry_addr(tentry(m2, f, ix)),
    ) == (tlevel(m2, f) - 1) as nat by {
        if f == dst && ix == i {
            assert(tentry(m2, f, ix) == tentry(m, src, i));
        } else {
            assert(tentry(m2, f, ix) == tentry(m, f, ix));
        }
    }
    assert forall|f1: u64, i1: int, f2: u64, i2: int|
        #![trigger tentry(m2, f1, i1), tentry(m2, f2, i2)]
        m2.contains_key(f1) && m2.contains_key(f2) && 2 <= tlevel(m2, f1) <= 3 && 2 <= tlevel(
            m2,
            f2,
        ) <= 3 && 0 <= i1 < 512 && 0 <= i2 < 512 && entry_present(tentry(m2, f1, i1))
            && entry_present(tentry(m2, f2, i2)) && entry_addr(tentry(m2, f1, i1)) == entry_addr(
            tentry(m2, f2, i2),
        ) implies f1 == f2 && i1 == i2 by {
        assert(tentry(m2, f1, i1) == tentry(m, f1, i1));
        assert(tentry(m2, f2, i2) == tentry(m, f2, i2));
    }
    assert forall|f1: u64, i1: int, f2: u64, i2: int|
        #![trigger tentry(m2, f1, i1), tentry(m2, f2, i2)]
        m2.contains_key(f1) && m2.contains_key(f2) && tlevel(m2, f1) == 4 && tlevel(m2, f2) == 4
            && 0 <= i1 < 512 && 0 <= i2 < 512 && entry_present(tentry(m2, f1, i1))
            && entry_present(tentry(m2, f2, i2)) && entry_addr(tentry(m2, f1, i1)) == entry_addr(
            tentry(m2, f2, i2),
        ) implies i1 == i2 && (f1 == f2 || i1 >= 256) by {
        let new1 = f1 == dst && i1 == i;
        let new2 = f2 == dst && i2 == i;
        if new1 && new2 {
        } else if new1 {
            assert(tentry(m2, f1, i1) == tentry(m, src, i));
            assert(tentry(m2, f2, i2) == tentry(m, f2, i2));
        } else if new2 {
            assert(tentry(m2, f2, i2) == tentry(m, src, i));
            assert(tentry(m2, f1, i1) == tentry(m, f1, i1));
        } else {
            assert(tentry(m2, f1, i1) == tentry(m, f1, i1));
            assert(tentry(m2, f2, i2) == tentry(m, f2, i2));
        }
    }
}

/// Distinct page-aligned addresses of the kernel upper region are on
/// distinct pages of the walk.
proof fn lemma_high_pages_distinct(v: u64, w: u64)
    by (bit_vector)
    requires
        v % 4096 == 0,
        w % 4096 == 0,
        v != w,
        v >= 0xFFFF_F000_0000_0000,
        w >= 0xFFFF_F000_0000_0000,
    ensures
        !same_page(v, w),
{
}

/// Addresses of the kernel stack region live in the upper half of the
/// level-4 table.
proof fn lemma_high_page_index(v: u64)
    by (bit_vector)
    requires
        v >= 0xFFFF_F000_0000_0000,
    ensures
        l4_index(v) >= 480,
{
}

/// The memory subsystem: physical allocator, page tables, address-space
/// roots, the direct-map offset, the kernel-stack cursor and modelled RAM.
pub struct MemoryManager {
    pmm: BitmapAllocator,
    tables: PageTables,
    roots: Vec<u64>,
    active_root: u64,
    phys_offset: u64,
    next_stack_addr: u64,
    ram: RamStore,
}

impl MemoryManager {
    /// The page-table arena, as a map from table frame to its contents.
    pub closed spec fn pt(self) -> Map<u64, (nat, Seq<u64>)> {
        self.tables@
    }

    /// The active address-space root.
    pub closed spec fn root(self) -> u64 {
        self.active_root
    }

    /// Every root created so far.
    pub closed spec fn roots_seq(self) -> Seq<u64> {
        self.roots@
    }

    /// The owned frame allocator.
    pub closed spec fn allocator(self) -> BitmapAllocator {
        self.pmm
    }

    /// The modelled contents of physical memory.
    pub closed spec fn ram_map(self) -> Map<u64, Seq<u8>> {
        self.ram@
    }

    /// The virtual offset of the direct-map window.
    pub closed spec fn offset(self) -> u64 {
        self.phys_offset
    }

    /// Where the next kernel stack will be carved out.
    pub closed spec fn stack_cursor(self) -> u64 {
        self.next_stack_addr
    }

    /// The invariant parts that do not mention the root list.
    pub closed spec fn wf_no_roots(self) -> bool {
        &&& self.allocator().wf()
        &&& self.tables.wf()
        &&& self.ram().wf()
        &&& self.stack_cursor() % 4096 == 0
        &&& self.stack_cursor() >= KERNEL_STACK_REGION
    }

    /// Full invariant of the memory subsystem.
    pub closed spec fn wf(self) -> bool {
        &&& self.allocator().wf()
        &&& self.tables.wf()
        &&& wf_tree(self.pt())
        &&& self.roots_seq().contains(self.root())
        &&& forall|k: int|
            0 <= k < self.roots_seq().len() ==> self.pt().contains_key(
                #[trigger] self.roots_seq()[k],
            ) && tlevel(self.pt(), self.roots_seq()[k]) == 4
        &&& forall|f: u64|
            #[trigger] self.pt().contains_key(f) ==> f as int / 4096 < self.allocator().total()
                && self.allocator().bits()[f as int / 4096]
        &&& self.ram().wf()
        &&& self.stack_cursor() % 4096 == 0
        &&& self.stack_cursor() >= KERNEL_STACK_REGION
    }

    pub closed spec fn ram(self) -> RamStore {
        self.ram
    }

    /// Builds the memory subsystem from the boot memory map and the
    /// direct-map offset: seeds the frame allocator, then allocates and
    /// zeroes the root table of the boot address space. Nothing is mapped
    /// in it yet, so no virtual address translates — in particular the
    /// null page. Fails exactly when the bitmap cannot be built from the
    /// map, or no frame is left free for the root table.
    pub fn init(regions: &Vec<MemRegion>, phys_offset: u64) -> (r: Option<MemoryManager>)
        ensures
            match r {
                Some(mm) => {
                    &&& mm.wf()
                    &&& mm.offset() == phys_offset
                    &&& mm.roots_seq().len() == 1
                    &&& mm.roots_seq()[0] == mm.root()
                    &&& forall|v: u64| translate_spec(mm.pt(), mm.root(), v) is None
                    &&& forall|v: u64| !user_path_ok(mm.pt(), mm.root(), v)
                    &&& forall|p: u64| phys_byte(mm.ram_map(), p) == 0u8
                    &&& mm.stack_cursor() == KERNEL_STACK_REGION
                    &&& bitmap_init_ok(regions@)
                    &&& !(forall|f: int|
                        0 <= f < max_region_end(regions@) / 4096 ==> #[trigger] init_frame_used(
                            regions@,
                            f,
                        ))
                },
                None => !bitmap_init_ok(regions@) || (forall|f: int|
                    0 <= f < max_region_end(regions@) / 4096 ==> #[trigger] init_frame_used(
                        regions@,
                        f,
                    )),
            },
    {
        let mut pmm = match BitmapAllocator::init(regions) {
            Some(a) => a,
            None => {
                return None;
            },
        };
        let ghost pre_alloc = pmm;
        let root = match pmm.alloc_frame() {
            Some(a) => a,
            None => {
                proof {
                    // exhaustion right after construction: every frame of
                    // the fresh bitmap is marked used
                    assert forall|f: int|
                        0 <= f < max_region_end(regions@) / 4096 implies #[trigger] init_frame_used(
                        regions@,
                        f,
                    ) by {
                        assert(pre_alloc.bits()[f] == init_frame_used(regions@, f));
                        assert(pre_alloc.bits()[f]);
                    }
                }
                return None;
            },
        };
        proof {
            // a frame was free, so initialization did not use them all
            let ridx = root as int / 4096;
            assert(pre_alloc.bits()[ridx] == init_frame_used(regions@, ridx));
            assert(!init_frame_used(regions@, ridx));
        }
        proof {
            crate::pmm::lemma_wf_bounds(pmm);
            assert(root as int / 4096 < pmm.total());
            assert(pmm.bits().len() == pmm.total());
            assert(pmm.wf());
            assert(root == (root as int / 4096) * 4096);
            crate::pmm::lemma_wf_bounds(pre_alloc);
            assert(pmm.bits() == pre_alloc.bits().update(root as int / 4096, true));
            assert(pmm.bits()[root as int / 4096]);
        }
        let mut tables = PageTables::new();
        let ghost idx = root as int / 4096;
        proof {
            assert(root == idx * 4096);
            assert(root as int % 4096 == 0) by {
                vstd::arithmetic::div_mod::lemma_mod_multiples_basic(idx, 4096);
            }
            crate::pmm::lemma_wf_bounds(pmm);
            assert(root <= 0xFF_FFFF_FFFF * 4096) by {
                vstd::arithmetic::mul::lemma_mul_inequality(idx, 0xFF_FFFF_FFFF, 4096);
            }
            assert(root & ENTRY_ADDR_MASK == root) by (bit_vector)
                requires
                    root % 4096 == 0,
                    root < 0x10_0000_0000_0000,
            ;
        }
        tables.insert_table(root, 4);
        let mut roots: Vec<u64> = Vec::new();
        roots.push(root);
        let mm = MemoryManager {
            pmm,
            tables,
            roots,
            active_root: root,
            phys_offset,
            next_stack_addr: KERNEL_STACK_REGION,
            ram: RamStore::new(),
        };
        proof {
            let m = mm.pt();
            assert forall|f: u64, i: int|
                #![trigger tentry(m, f, i)]
                m.contains_key(f) && 0 <= i < 512 implies !entry_present(tentry(m, f, i)) by {
                lemma_entry_addr_props(0);
                assert(tentry(m, f, i) == 0u64);
            }
            assert(mm.roots_seq().contains(mm.root())) by {
                assert(mm.roots_seq()[0] == root);
            }
            assert forall|v: u64| translate_spec(m, mm.root(), v) is None by {
                lemma_index_bounds(v);
                assert(!entry_present(tentry(m, root, l4_index(v) as int)));
            }
            assert forall|v: u64| !user_path_ok(m, mm.root(), v) by {
                lemma_index_bounds(v);
                assert(!entry_present(tentry(m, root, l4_index(v) as int)));
            }
            assert forall|f: u64| #[trigger] m.contains_key(f) implies f as int / 4096 < mm
                .allocator().total() && mm.allocator().bits()[f as int / 4096] by {
                assert(f == root);
                vstd::arithmetic::div_mod::lemma_div_by_multiple(idx, 4096);
                assert(root as int / 4096 == idx);
            }
            assert(mm.wf());
        }
        Some(mm)
    }

    /// Reads the present child of `table` at `idx`: the frame of the
    /// next-level table, or `None` when the entry is absent.
    fn child_table(&self, table: u64, idx: usize) -> (r: Option<u64>)
        requires
            self.wf(),
            self.pt().contains_key(table),
            tlevel(self.pt(), table) >= 2,
            idx < 512,
        ensures
            match r {
                Some(c) => entry_present(tentry(self.pt(), table, idx as int)) && c == entry_addr(
                    tentry(self.pt(), table, idx as int),
                ) && self.pt().contains_key(c) && tlevel(self.pt(), c) == (tlevel(
                    self.pt(),
                    table,
                ) - 1) as nat,
                None => !entry_present(tentry(self.pt(), table, idx as int)),
            },
    {
        let e = self.tables.read_entry(table, idx);
        if e & PAGE_PRESENT == PAGE_PRESENT {
            Some(e & ENTRY_ADDR_MASK)
        } else {
            None
        }
    }

    /// Translates a virtual address by walking the four levels of the
    /// active address space, returning the physical address or `None`
    /// when any level is absent.
    pub fn translate(&self, virt: u64) -> (r: Option<u64>)
        requires
            self.wf(),
        ensures
            r == translate_spec(self.pt(), self.root(), virt),
    {
        proof {
            lemma_index_bounds(virt);
        }
        let i4 = ((virt >> 39) & 0x1FF) as usize;
        let i3 = ((virt >> 30) & 0x1FF) as usize;
        let i2 = ((virt >> 21) & 0x1FF) as usize;
        let i1 = ((virt >> 12) & 0x1FF) as usize;

        let t3 = match self.child_table(self.active_root, i4) {
            Some(t) => t,
            None => {
                return None;
            },
        };
        let t2 = match self.child_table(t3, i3) {
            Some(t) => t,
            None => {
                return None;
            },
        };
        let t1 = match self.child_table(t2, i2) {
            Some(t) => t,
            None => {
                return None;
            },
        };
        let e1 = self.tables.read_entry(t1, i1);
        if e1 & PAGE_PRESENT == PAGE_PRESENT {
            proof {
                lemma_entry_addr_props(e1);
            }
            Some((e1 & ENTRY_ADDR_MASK) + (virt & 0xFFF))
        } else {
            None
        }
    }

    /// Walks all four levels for the page of `addr` and returns the leaf
    /// flags only when every level is present and user-accessible.
    fn walk_user_flags(&self, addr: u64) -> (r: Option<u64>)
        requires
            self.wf(),
        ensures
            r == user_leaf_flags(self.pt(), self.root(), addr),
    {
        proof {
            lemma_index_bounds(addr);
        }
        let i4 = ((addr >> 39) & 0x1FF) as usize;
        let i3 = ((addr >> 30) & 0x1FF) as usize;
        let i2 = ((addr >> 21) & 0x1FF) as usize;
        let i1 = ((addr >> 12) & 0x1FF) as usize;

        let e4 = self.tables.read_entry(self.active_root, i4);
        if e4 & PAGE_PRESENT != PAGE_PRESENT {
            return None;
        }
        let t3 = e4 & ENTRY_ADDR_MASK;
        let e3 = self.tables.read_entry(t3, i3);
        if e3 & PAGE_PRESENT != PAGE_PRESENT {
            return None;
        }
        let t2 = e3 & ENTRY_ADDR_MASK;
        let e2 = self.tables.read_entry(t2, i2);
        if e2 & PAGE_PRESENT != PAGE_PRESENT {
            return None;
        }
        let t1 = e2 & ENTRY_ADDR_MASK;
        let e1 = self.tables.read_entry(t1, i1);
        if e1 & PAGE_PRESENT != PAGE_PRESENT {
            return None;
        }
        if e4 & PAGE_USER != PAGE_USER || e3 & PAGE_USER != PAGE_USER || e2 & PAGE_USER != PAGE_USER
            || e1 & PAGE_USER != PAGE_USER {
            return None;
        }
        Some(e1 & 0xFFF)
    }

    /// Returns the child table of `parent` at `idx`, creating a fresh
    /// zeroed table from the frame allocator when the entry is absent.
    /// A created entry is marked present, writable and user-accessible,
    /// so permission is never narrowed partway down the tree.
    fn ensure_table(&mut self, parent: u64, idx: usize, child_level: usize) -> (r: Result<
        u64,
        MemError,
    >)
        requires
            old(self).wf(),
            old(self).pt().contains_key(parent),
            2 <= tlevel(old(self).pt(), parent),
            tlevel(old(self).pt(), parent) <= 4,
            child_level as nat == (tlevel(old(self).pt(), parent) - 1) as nat,
            idx < 512,
        ensures
            final(self).wf(),
            final(self).roots_seq() == old(self).roots_seq(),
            final(self).root() == old(self).root(),
            final(self).offset() == old(self).offset(),
            final(self).stack_cursor() == old(self).stack_cursor(),
            final(self).ram_map() == old(self).ram_map(),
            final(self).allocator().total() == old(self).allocator().total(),
            forall|fi: int|
                0 <= fi < old(self).allocator().total() && old(self).allocator().bits()[fi]
                    ==> #[trigger] final(self).allocator().bits()[fi],
            match r {
                Ok(c) => {
                    &&& final(self).pt().contains_key(c)
                    &&& tlevel(final(self).pt(), c) == child_level as nat
                    &&& entry_present(tentry(final(self).pt(), parent, idx as int))
                    &&& entry_addr(tentry(final(self).pt(), parent, idx as int)) == c
                    &&& forall|f: u64|
                        old(self).pt().contains_key(f) ==> #[trigger] final(self).pt().contains_key(
                            f,
                        ) && tlevel(final(self).pt(), f) == tlevel(old(self).pt(), f)
                    &&& forall|f: u64, i: int|
                        old(self).pt().contains_key(f) && 0 <= i < 512 && !(f == parent && i
                            == idx as int) ==> #[trigger] tentry(final(self).pt(), f, i) == tentry(
                            old(self).pt(),
                            f,
                            i,
                        )
                    &&& forall|r2: u64, w: u64|
                        old(self).pt().contains_key(r2) && tlevel(old(self).pt(), r2) == 4 ==> (
                        #[trigger] translate_spec(final(self).pt(), r2, w)) == translate_spec(
                            old(self).pt(),
                            r2,
                            w,
                        ) && user_path_ok(final(self).pt(), r2, w) == user_path_ok(
                            old(self).pt(),
                            r2,
                            w,
                        ) && user_leaf_flags(final(self).pt(), r2, w) == user_leaf_flags(
                            old(self).pt(),
                            r2,
                            w,
                        ) && present_leaf_flags(final(self).pt(), r2, w) == present_leaf_flags(
                            old(self).pt(),
                            r2,
                            w,
                        )
                    &&& if entry_present(tentry(old(self).pt(), parent, idx as int)) {
                        *final(self) == *old(self)
                    } else {
                        &&& !old(self).pt().contains_key(c)
                        &&& tentry(final(self).pt(), parent, idx as int) == (c | 7u64)
                        &&& entry_user(tentry(final(self).pt(), parent, idx as int))
                        &&& entry_writable(tentry(final(self).pt(), parent, idx as int))
                        &&& final(self).allocator().used() == old(self).allocator().used() + 1
                        &&& forall|i: int|
                            0 <= i < 512 ==> #[trigger] tentry(final(self).pt(), c, i) == 0u64
                    }
                },
                Err(e) => e == MemError::OutOfFrames && *final(self) == *old(self) && forall|
                    fi: int,
                |
                    0 <= fi < final(self).allocator().total() ==> #[trigger] final(self).allocator().bits()[fi],
            },
    {
        let ghost pre = *self;
        let e0 = self.tables.read_entry(parent, idx);
        if e0 & PAGE_PRESENT == PAGE_PRESENT {
            proof {
                assert(entry_present(tentry(pre.pt(), parent, idx as int)));
            }
            return Ok(e0 & ENTRY_ADDR_MASK);
        }
        let c = match self.pmm.alloc_frame() {
            Some(a) => a,
            None => {
                return Err(MemError::OutOfFrames);
            },
        };
        let ghost cidx = c as int / 4096;
        proof {
            crate::pmm::lemma_wf_bounds(pre.allocator());
            assert(c == cidx * 4096);
            assert(c as int % 4096 == 0) by {
                vstd::arithmetic::div_mod::lemma_mod_multiples_basic(cidx, 4096);
            }
            assert(c <= 0xFF_FFFF_FFFF * 4096) by {
                vstd::arithmetic::mul::lemma_mul_inequality(cidx, 0xFF_FFFF_FFFF, 4096);
            }
            assert(c & ENTRY_ADDR_MASK == c) by (bit_vector)
                requires
                    c % 4096 == 0,
                    c < 0x10_0000_0000_0000,
            ;
            vstd::arithmetic::div_mod::lemma_div_by_multiple(cidx, 4096);
            assert(!pre.pt().contains_key(c)) by {
                if pre.pt().contains_key(c) {
                    assert(pre.allocator().bits()[cidx]);
                }
            }
        }
        self.tables.insert_table(c, child_level);
        proof {
            assert((PAGE_PRESENT | PAGE_WRITABLE | PAGE_USER) == 7u64) by (bit_vector);
        }
        self.tables.write_entry(parent, idx, c | (PAGE_PRESENT | PAGE_WRITABLE | PAGE_USER));
        proof {
            let m = pre.pt();
            let lvl = child_level as nat;
            pre.tables.lemma_view_wf();
            assert(wf_views(m));
            assert(self.tables@ =~~= extend_map(m, parent, idx as int, c, lvl));
            lemma_extend_bridge(m, parent, idx as int, c, lvl);
            lemma_wf_tree_extend(m, parent, idx as int, c, lvl);
            assert(7u64 & 1 == 1u64 && 7u64 & 2 == 2u64 && 7u64 & 4 == 4u64 && 7u64 & 0xFFF
                == 7u64) by (bit_vector);
            lemma_make_entry(c, 7u64);
            // the full invariant of the subsystem
            assert forall|f: u64| #[trigger] self.pt().contains_key(f) implies f as int / 4096
                < self.allocator().total() && self.allocator().bits()[f as int / 4096] by {
                if f == c {
                    assert(c as int / 4096 == cidx);
                } else {
                    assert(pre.pt().contains_key(f));
                }
            }
            assert(self.wf());
            assert forall|r2: u64, w: u64|
                m.contains_key(r2) && tlevel(m, r2) == 4 implies (#[trigger] translate_spec(
                self.pt(),
                r2,
                w,
            )) == translate_spec(m, r2, w) && user_path_ok(self.pt(), r2, w) == user_path_ok(
                m,
                r2,
                w,
            ) && user_leaf_flags(self.pt(), r2, w) == user_leaf_flags(m, r2, w)
                && present_leaf_flags(self.pt(), r2, w) == present_leaf_flags(m, r2, w) by {
                lemma_extend_preserves_walks(m, parent, idx as int, c, lvl, r2, w);
            }
        }
        Ok(c)
    }

    /// Maps the page of `virt` to the frame of `phys` with the given leaf
    /// flags, in the address space rooted at `root`, lazily creating and
    /// zeroing intermediate tables. Newly created intermediate entries are
    /// present, writable and user-accessible; the leaf receives the
    /// caller's flags verbatim. Fails on a page that already has a present
    /// mapping, and when the frame allocator runs dry partway through the
    /// walk (tables created so far remain, but no translation changes).
    pub fn map_page_in(&mut self, root: u64, virt: u64, phys: u64, flags: u64) -> (r: Result<
        (),
        MemError,
    >)
        requires
            old(self).wf(),
            old(self).roots_seq().contains(root),
            flags & 0xFFF == flags,
            phys < 0x10_0000_0000_0000,
        ensures
            final(self).wf(),
            final(self).roots_seq() == old(self).roots_seq(),
            final(self).root() == old(self).root(),
            final(self).offset() == old(self).offset(),
            final(self).stack_cursor() == old(self).stack_cursor(),
            final(self).ram_map() == old(self).ram_map(),
            final(self).allocator().total() == old(self).allocator().total(),
            forall|fi: int|
                0 <= fi < old(self).allocator().total() && old(self).allocator().bits()[fi]
                    ==> #[trigger] final(self).allocator().bits()[fi],
            match r {
                Ok(()) => {
                    &&& !(l1e(old(self).pt(), root, virt) matches Some(e1) && entry_present(e1))
                    &&& forall|w: u64|
                        same_page(w, virt) ==> #[trigger] l1e(final(self).pt(), root, w) == Some(
                            page_base(phys) | flags,
                        )
                    &&& (flags & 1 == 1 ==> forall|w: u64|
                        same_page(w, virt) ==> #[trigger] translate_spec(final(self).pt(), root, w)
                            == Some((page_base(phys) + page_offset(w)) as u64))
                    &&& forall|w: u64|
                        !same_page(w, virt) ==> (#[trigger] translate_spec(
                            final(self).pt(),
                            root,
                            w,
                        )) == translate_spec(old(self).pt(), root, w) && user_path_ok(
                            final(self).pt(),
                            root,
                            w,
                        ) == user_path_ok(old(self).pt(), root, w) && user_leaf_flags(
                            final(self).pt(),
                            root,
                            w,
                        ) == user_leaf_flags(old(self).pt(), root, w) && present_leaf_flags(
                            final(self).pt(),
                            root,
                            w,
                        ) == present_leaf_flags(old(self).pt(), root, w)
                    &&& ({
                        let n4 = l4e(final(self).pt(), root, virt)->Some_0;
                        let n3 = l3e(final(self).pt(), root, virt)->Some_0;
                        let n2 = l2e(final(self).pt(), root, virt)->Some_0;
                        let o4 = l4e(old(self).pt(), root, virt);
                        let o3 = l3e(old(self).pt(), root, virt);
                        let o2 = l2e(old(self).pt(), root, virt);
                        &&& l4e(final(self).pt(), root, virt) is Some && entry_present(n4)
                        &&& l3e(final(self).pt(), root, virt) is Some && entry_present(n3)
                        &&& l2e(final(self).pt(), root, virt) is Some && entry_present(n2)
                        &&& (o4 is Some && entry_present(o4->Some_0) ==> n4 == o4->Some_0)
                        &&& (!(o4 is Some && entry_present(o4->Some_0)) ==> entry_user(n4)
                            && entry_writable(n4))
                        &&& (o3 is Some && entry_present(o3->Some_0) ==> n3 == o3->Some_0)
                        &&& (!(o3 is Some && entry_present(o3->Some_0)) ==> entry_user(n3)
                            && entry_writable(n3))
                        &&& (o2 is Some && entry_present(o2->Some_0) ==> n2 == o2->Some_0)
                        &&& (!(o2 is Some && entry_present(o2->Some_0)) ==> entry_user(n2)
                            && entry_writable(n2))
                        &&& final(self).allocator().used() == old(self).allocator().used() + (
                        if o4 is Some && entry_present(o4->Some_0) {
                            0int
                        } else {
                            1int
                        }) + (if o3 is Some && entry_present(o3->Some_0) {
                            0int
                        } else {
                            1int
                        }) + (if o2 is Some && entry_present(o2->Some_0) {
                            0int
                        } else {
                            1int
                        })
                    })
                },
                Err(e) => {
                    &&& (e == MemError::AlreadyMapped || e == MemError::OutOfFrames)
                    &&& (e == MemError::AlreadyMapped ==> *final(self) == *old(self) && (l1e(
                        old(self).pt(),
                        root,
                        virt,
                    ) matches Some(e1) && entry_present(e1)))
                    &&& (e == MemError::OutOfFrames ==> forall|fi: int|
                        0 <= fi < final(self).allocator().total()
                            ==> #[trigger] final(self).allocator().bits()[fi])
                    &&& forall|w: u64|
                        (#[trigger] translate_spec(final(self).pt(), root, w)) == translate_spec(
                            old(self).pt(),
                            root,
                            w,
                        ) && user_path_ok(final(self).pt(), root, w) == user_path_ok(
                            old(self).pt(),
                            root,
                            w,
                        ) && user_leaf_flags(final(self).pt(), root, w) == user_leaf_flags(
                            old(self).pt(),
                            root,
                            w,
                        ) && present_leaf_flags(final(self).pt(), root, w) == present_leaf_flags(
                            old(self).pt(),
                            root,
                            w,
                        )
                    &&& forall|r2: u64, w: u64|
                        old(self).pt().contains_key(r2) && tlevel(old(self).pt(), r2) == 4 ==> (
                        #[trigger] translate_spec(final(self).pt(), r2, w)) == translate_spec(
                            old(self).pt(),
                            r2,
                            w,
                        ) && user_path_ok(final(self).pt(), r2, w) == user_path_ok(
                            old(self).pt(),
                            r2,
                            w,
                        ) && user_leaf_flags(final(self).pt(), r2, w) == user_leaf_flags(
                            old(self).pt(),
                            r2,
                            w,
                        ) && present_leaf_flags(final(self).pt(), r2, w) == present_leaf_flags(
                            old(self).pt(),
                            r2,
                            w,
                        )
                },
            },
    {
        proof {
            lemma_index_bounds(virt);
            let ki = choose|ki: int|
                0 <= ki < old(self).roots_seq().len() && old(self).roots_seq()[ki] == root;
            assert(self.pt().contains_key(root) && tlevel(self.pt(), root) == 4);
        }
        let i4 = ((virt >> 39) & 0x1FF) as usize;
        let i3 = ((virt >> 30) & 0x1FF) as usize;
        let i2 = ((virt >> 21) & 0x1FF) as usize;
        let i1 = ((virt >> 12) & 0x1FF) as usize;
        let ghost s0 = *self;
        let t3 = match self.ensure_table(root, i4, 3) {
            Ok(t) => t,
            Err(e) => {
                return Err(e);
            },
        };
        let ghost s1 = *self;
        let t2 = match self.ensure_table(t3, i3, 2) {
            Ok(t) => t,
            Err(e) => {
                return Err(e);
            },
        };
        let ghost s2 = *self;
        let t1 = match self.ensure_table(t2, i2, 1) {
            Ok(t) => t,
            Err(e) => {
                proof {
                    assert forall|r2: u64, w: u64|
                        s0.pt().contains_key(r2) && tlevel(s0.pt(), r2) == 4 implies (
                    #[trigger] translate_spec(self.pt(), r2, w)) == translate_spec(s0.pt(), r2, w)
                        && user_path_ok(self.pt(), r2, w) == user_path_ok(s0.pt(), r2, w)
                        && user_leaf_flags(self.pt(), r2, w) == user_leaf_flags(s0.pt(), r2, w)
                        && present_leaf_flags(self.pt(), r2, w) == present_leaf_flags(
                        s0.pt(),
                        r2,
                        w,
                    ) by {
                        assert(s1.pt().contains_key(r2) && tlevel(s1.pt(), r2) == 4);
                        assert(translate_spec(s1.pt(), r2, w) == translate_spec(s0.pt(), r2, w));
                        assert(translate_spec(s2.pt(), r2, w) == translate_spec(s1.pt(), r2, w));
                        assert(present_leaf_flags(s1.pt(), r2, w) == present_leaf_flags(
                            s0.pt(),
                            r2,
                            w,
                        ));
                        assert(present_leaf_flags(s2.pt(), r2, w) == present_leaf_flags(
                            s1.pt(),
                            r2,
                            w,
                        ));
                    }
                }
                return Err(e);
            },
        };
        let ghost s3 = *self;
        proof {
            // the path from the root to the leaf table, as it stands now
            assert(tentry(s3.pt(), root, i4 as int) == tentry(s1.pt(), root, i4 as int));
            assert(entry_present(tentry(s3.pt(), root, i4 as int)));
            assert(entry_addr(tentry(s3.pt(), root, i4 as int)) == t3);
            assert(tentry(s3.pt(), t3, i3 as int) == tentry(s2.pt(), t3, i3 as int));
            assert(entry_present(tentry(s3.pt(), t3, i3 as int)));
            assert(entry_addr(tentry(s3.pt(), t3, i3 as int)) == t2);
            assert(entry_present(tentry(s3.pt(), t2, i2 as int)));
            assert(entry_addr(tentry(s3.pt(), t2, i2 as int)) == t1);
            assert(l4e(s3.pt(), root, virt) == Some(tentry(s3.pt(), root, i4 as int)));
            assert(l3e(s3.pt(), root, virt) == Some(tentry(s3.pt(), t3, i3 as int)));
            assert(l2e(s3.pt(), root, virt) == Some(tentry(s3.pt(), t2, i2 as int)));
            assert(l1e(s3.pt(), root, virt) == Some(tentry(s3.pt(), t1, i1 as int)));
            assert(leaf_table(s3.pt(), root, virt) == t1);
        }
        let e1 = self.tables.read_entry(t1, i1);
        if e1 & PAGE_PRESENT == PAGE_PRESENT {
            proof {
                // a present leaf means every level already existed, so
                // nothing was created and the state is untouched
                lemma_entry_addr_props(0);
                if !entry_present(tentry(s0.pt(), root, i4 as int)) {
                    assert(tentry(s1.pt(), t3, i3 as int) == 0u64);
                    assert(tentry(s2.pt(), t2, i2 as int) == 0u64);
                    assert(tentry(s3.pt(), t1, i1 as int) == 0u64);
                    assert(false);
                }
                assert(s1 == s0) by {
                    assert(entry_present(tentry(s0.pt(), root, i4 as int)));
                }
                if !entry_present(tentry(s1.pt(), t3, i3 as int)) {
                    assert(tentry(s2.pt(), t2, i2 as int) == 0u64);
                    assert(tentry(s3.pt(), t1, i1 as int) == 0u64);
                    assert(false);
                }
                assert(s2 == s1);
                if !entry_present(tentry(s2.pt(), t2, i2 as int)) {
                    assert(tentry(s3.pt(), t1, i1 as int) == 0u64);
                    assert(false);
                }
                assert(s3 == s2);
                assert(l1e(s0.pt(), root, virt) == Some(e1));
            }
            return Err(MemError::AlreadyMapped);
        }
        proof {
            lemma_index_bounds(phys);
            assert(page_base(phys) & ENTRY_ADDR_MASK == page_base(phys)) by (bit_vector)
                requires
                    phys < 0x10_0000_0000_0000,
            ;
            lemma_make_entry(page_base(phys), flags);
        }
        let entry = (phys & !0xFFFu64) | flags;
        self.tables.write_entry(t1, i1, entry);
        proof {
            let m3 = s3.pt();
            let m4 = self.pt();
            s3.tables.lemma_view_wf();
            assert(wf_views(m3));
            assert(m4 == leaf_write_map(m3, t1, l1_index(virt) as int, entry));
            lemma_leaf_write_wf(m3, t1, l1_index(virt) as int, entry);
            lemma_leaf_write_bridge(m3, t1, l1_index(virt) as int, entry);
            // full invariant
            assert forall|f: u64| #[trigger] m4.contains_key(f) implies f as int / 4096 < self
                .allocator().total() && self.allocator().bits()[f as int / 4096] by {
                assert(m3.contains_key(f));
            }
            assert(self.wf());
            // the page itself
            assert forall|w: u64| same_page(w, virt) implies #[trigger] l1e(m4, root, w) == Some(
                page_base(phys) | flags,
            ) by {
                lemma_leaf_write_same(m3, root, virt, entry, w);
            }
            if flags & 1 == 1 {
                assert(entry_present(entry));
                assert forall|w: u64| same_page(w, virt) implies #[trigger] translate_spec(
                    m4,
                    root,
                    w,
                ) == Some((page_base(phys) + page_offset(w)) as u64) by {
                    lemma_leaf_write_same(m3, root, virt, entry, w);
                    lemma_index_bounds(w);
                }
            }
            // every other page of this address space
            assert forall|w: u64| !same_page(w, virt) implies (#[trigger] translate_spec(
                m4,
                root,
                w,
            )) == translate_spec(s0.pt(), root, w) && user_path_ok(m4, root, w) == user_path_ok(
                s0.pt(),
                root,
                w,
            ) && user_leaf_flags(m4, root, w) == user_leaf_flags(s0.pt(), root, w)
                && present_leaf_flags(m4, root, w) == present_leaf_flags(s0.pt(), root, w) by {
                lemma_leaf_write_other(m3, root, virt, entry, w);
                assert(s1.pt().contains_key(root) && tlevel(s1.pt(), root) == 4);
                assert(s2.pt().contains_key(root) && tlevel(s2.pt(), root) == 4);
                assert(translate_spec(s1.pt(), root, w) == translate_spec(s0.pt(), root, w));
                assert(translate_spec(s2.pt(), root, w) == translate_spec(s1.pt(), root, w));
                assert(translate_spec(m3, root, w) == translate_spec(s2.pt(), root, w));
                assert(present_leaf_flags(s1.pt(), root, w) == present_leaf_flags(
                    s0.pt(),
                    root,
                    w,
                ));
                assert(present_leaf_flags(s2.pt(), root, w) == present_leaf_flags(
                    s1.pt(),
                    root,
                    w,
                ));
                assert(present_leaf_flags(m3, root, w) == present_leaf_flags(s2.pt(), root, w));
            }
            // the ancestors of the new leaf entry
            lemma_entry_addr_props(0);
            assert(root != t1 && t3 != t1 && t2 != t1);
            assert(tlevel(s2.pt(), t3) == 3 && tlevel(s2.pt(), t2) == 2);
            assert(t3 != t2 && root != t3 && root != t2);
            assert(l4e(m4, root, virt) == l4e(m3, root, virt));
            assert(l3e(m4, root, virt) == l3e(m3, root, virt));
            assert(l2e(m4, root, virt) == l2e(m3, root, virt));
            let n4v = tentry(s3.pt(), root, i4 as int);
            let n3v = tentry(s3.pt(), t3, i3 as int);
            let n2v = tentry(s3.pt(), t2, i2 as int);
            assert(n3v == tentry(s2.pt(), t3, i3 as int));
            assert(n4v == tentry(s2.pt(), root, i4 as int));
            assert(self.allocator() == s3.allocator());
            if entry_present(tentry(s0.pt(), root, i4 as int)) {
                assert(s1 == s0);
                assert(l4e(s0.pt(), root, virt) == Some(tentry(s0.pt(), root, i4 as int)));
                assert(l3e(s0.pt(), root, virt) == Some(tentry(s0.pt(), t3, i3 as int)));
                if entry_present(tentry(s1.pt(), t3, i3 as int)) {
                    assert(s2 == s1);
                    assert(l2e(s0.pt(), root, virt) == Some(tentry(s0.pt(), t2, i2 as int)));
                    if entry_present(tentry(s2.pt(), t2, i2 as int)) {
                        assert(s3 == s2);
                        assert(l1e(s0.pt(), root, virt) == Some(tentry(s0.pt(), t1, i1 as int)));
                        assert(tentry(s0.pt(), t1, i1 as int) == e1);
                        assert(s3.allocator().used() == s0.allocator().used());
                    } else {
                        // the leaf table is new
                        assert(entry_user(n2v) && entry_writable(n2v));
                        assert(l1e(s0.pt(), root, virt) is None);
                        assert(s3.allocator().used() == s0.allocator().used() + 1);
                    }
                } else {
                    // the level-2 table is new, so the leaf table is too
                    assert(entry_user(n3v) && entry_writable(n3v));
                    assert(tentry(s2.pt(), t2, i2 as int) == 0u64);
                    assert(entry_user(n2v) && entry_writable(n2v));
                    assert(l2e(s0.pt(), root, virt) is None);
                    assert(l1e(s0.pt(), root, virt) is None);
                    assert(s2.allocator().used() == s1.allocator().used() + 1);
                    assert(s3.allocator().used() == s0.allocator().used() + 2);
                }
            } else {
                // everything below the root entry is new
                assert(entry_user(n4v) && entry_writable(n4v));
                assert(tentry(s1.pt(), t3, i3 as int) == 0u64);
                assert(entry_user(n3v) && entry_writable(n3v));
                assert(tentry(s2.pt(), t2, i2 as int) == 0u64);
                assert(entry_user(n2v) && entry_writable(n2v));
                assert(l3e(s0.pt(), root, virt) is None);
                assert(l2e(s0.pt(), root, virt) is None);
                assert(l1e(s0.pt(), root, virt) is None);
                assert(s1.allocator().used() == s0.allocator().used() + 1);
                assert(s2.allocator().used() == s1.allocator().used() + 1);
                assert(s3.allocator().used() == s0.allocator().used() + 3);
            }
        }
        Ok(())
    }

    /// Maps `virt` to `phys` in the active address space; see
    /// `map_page_in`.
    pub fn map_page(&mut self, virt: u64, phys: u64, flags: u64) -> (r: Result<(), MemError>)
        requires
            old(self).wf(),
            flags & 0xFFF == flags,
            phys < 0x10_0000_0000_0000,
        ensures
            final(self).wf(),
            final(self).roots_seq() == old(self).roots_seq(),
            final(self).root() == old(self).root(),
            final(self).offset() == old(self).offset(),
            final(self).stack_cursor() == old(self).stack_cursor(),
            final(self).ram_map() == old(self).ram_map(),
            final(self).allocator().total() == old(self).allocator().total(),
            forall|fi: int|
                0 <= fi < old(self).allocator().total() && old(self).allocator().bits()[fi]
                    ==> #[trigger] final(self).allocator().bits()[fi],
            match r {
                Ok(()) => {
                    &&& !(l1e(old(self).pt(), old(self).root(), virt) matches Some(e1)
                        && entry_present(e1))
                    &&& forall|w: u64|
                        same_page(w, virt) ==> #[trigger] l1e(
                            final(self).pt(),
                            old(self).root(),
                            w,
                        ) == Some(page_base(phys) | flags)
                    &&& (flags & 1 == 1 ==> forall|w: u64|
                        same_page(w, virt) ==> #[trigger] translate_spec(
                            final(self).pt(),
                            old(self).root(),
                            w,
                        ) == Some((page_base(phys) + page_offset(w)) as u64))
                    &&& forall|w: u64|
                        !same_page(w, virt) ==> (#[trigger] translate_spec(
                            final(self).pt(),
                            old(self).root(),
                            w,
                        )) == translate_spec(old(self).pt(), old(self).root(), w) && user_path_ok(
                            final(self).pt(),
                            old(self).root(),
                            w,
                        ) == user_path_ok(old(self).pt(), old(self).root(), w) && user_leaf_flags(
                            final(self).pt(),
                            old(self).root(),
                            w,
                        ) == user_leaf_flags(old(self).pt(), old(self).root(), w)
                            && present_leaf_flags(final(self).pt(), old(self).root(), w)
                            == present_leaf_flags(old(self).pt(), old(self).root(), w)
                    &&& ({
                        let n4 = l4e(final(self).pt(), old(self).root(), virt)->Some_0;
                        let n3 = l3e(final(self).pt(), old(self).root(), virt)->Some_0;
                        let n2 = l2e(final(self).pt(), old(self).root(), virt)->Some_0;
                        let o4 = l4e(old(self).pt(), old(self).root(), virt);
                        let o3 = l3e(old(self).pt(), old(self).root(), virt);
                        let o2 = l2e(old(self).pt(), old(self).root(), virt);
                        &&& l4e(final(self).pt(), old(self).root(), virt) is Some
                            && entry_present(n4)
                        &&& l3e(final(self).pt(), old(self).root(), virt) is Some
                            && entry_present(n3)
                        &&& l2e(final(self).pt(), old(self).root(), virt) is Some
                            && entry_present(n2)
                        &&& (o4 is Some && entry_present(o4->Some_0) ==> n4 == o4->Some_0)
                        &&& (!(o4 is Some && entry_present(o4->Some_0)) ==> entry_user(n4)
                            && entry_writable(n4))
                        &&& (o3 is Some && entry_present(o3->Some_0) ==> n3 == o3->Some_0)
                        &&& (!(o3 is Some && entry_present(o3->Some_0)) ==> entry_user(n3)
                            && entry_writable(n3))
                        &&& (o2 is Some && entry_present(o2->Some_0) ==> n2 == o2->Some_0)
                        &&& (!(o2 is Some && entry_present(o2->Some_0)) ==> entry_user(n2)
                            && entry_writable(n2))
                        &&& final(self).allocator().used() == old(self).allocator().used() + (
                        if o4 is Some && entry_present(o4->Some_0) {
                            0int
                        } else {
                            1int
                        }) + (if o3 is Some && entry_present(o3->Some_0) {
                            0int
                        } else {
                            1int
                        }) + (if o2 is Some && entry_present(o2->Some_0) {
                            0int
                        } else {
                            1int
                        })
                    })
                },
                Err(e) => {
                    &&& (e == MemError::AlreadyMapped || e == MemError::OutOfFrames)
                    &&& (e == MemError::AlreadyMapped ==> *final(self) == *old(self) && (l1e(
                        old(self).pt(),
                        old(self).root(),
                        virt,
                    ) matches Some(e1) && entry_present(e1)))
                    &&& (e == MemError::OutOfFrames ==> forall|fi: int|
                        0 <= fi < final(self).allocator().total()
                            ==> #[trigger] final(self).allocator().bits()[fi])
                    &&& forall|w: u64|
                        (#[trigger] translate_spec(final(self).pt(), old(self).root(), w))
                            == translate_spec(old(self).pt(), old(self).root(), w) && user_path_ok(
                            final(self).pt(),
                            old(self).root(),
                            w,
                        ) == user_path_ok(old(self).pt(), old(self).root(), w) && user_leaf_flags(
                            final(self).pt(),
                            old(self).root(),
                            w,
                        ) == user_leaf_flags(old(self).pt(), old(self).root(), w)
                            && present_leaf_flags(final(self).pt(), old(self).root(), w)
                            == present_leaf_flags(old(self).pt(), old(self).root(), w)
                    &&& forall|r2: u64, w: u64|
                        old(self).pt().contains_key(r2) && tlevel(old(self).pt(), r2) == 4 ==> (
                        #[trigger] translate_spec(final(self).pt(), r2, w)) == translate_spec(
                            old(self).pt(),
                            r2,
                            w,
                        ) && user_path_ok(final(self).pt(), r2, w) == user_path_ok(
                            old(self).pt(),
                            r2,
                            w,
                        ) && user_leaf_flags(final(self).pt(), r2, w) == user_leaf_flags(
                            old(self).pt(),
                            r2,
                            w,
                        ) && present_leaf_flags(final(self).pt(), r2, w) == present_leaf_flags(
                            old(self).pt(),
                            r2,
                            w,
                        )
                },
            },
    {
        let root = self.active_root;
        self.map_page_in(root, virt, phys, flags)
    }

    /// Removes the present mapping of `virt`'s page from the active
    /// address space and returns the frame it pointed to. Intermediate
    /// tables are not reclaimed, and the frame itself is not freed.
    pub fn unmap_page(&mut self, virt: u64) -> (r: Result<u64, MemError>)
        requires
            old(self).wf(),
        ensures
            final(self).wf(),
            final(self).roots_seq() == old(self).roots_seq(),
            final(self).root() == old(self).root(),
            final(self).offset() == old(self).offset(),
            final(self).stack_cursor() == old(self).stack_cursor(),
            final(self).ram_map() == old(self).ram_map(),
            final(self).allocator() == old(self).allocator(),
            match r {
                Ok(p) => {
                    &&& l1e(old(self).pt(), old(self).root(), virt) matches Some(e1)
                        && entry_present(e1) && p == entry_addr(e1)
                    &&& translate_spec(old(self).pt(), old(self).root(), virt) == Some(
                        (p + page_offset(virt)) as u64,
                    )
                    &&& forall|w: u64|
                        same_page(w, virt) ==> (#[trigger] translate_spec(
                            final(self).pt(),
                            old(self).root(),
                            w,
                        )) is None && !user_path_ok(final(self).pt(), old(self).root(), w)
                    &&& forall|w: u64|
                        !same_page(w, virt) ==> (#[trigger] translate_spec(
                            final(self).pt(),
                            old(self).root(),
                            w,
                        )) == translate_spec(old(self).pt(), old(self).root(), w) && user_path_ok(
                            final(self).pt(),
                            old(self).root(),
                            w,
                        ) == user_path_ok(old(self).pt(), old(self).root(), w) && user_leaf_flags(
                            final(self).pt(),
                            old(self).root(),
                            w,
                        ) == user_leaf_flags(old(self).pt(), old(self).root(), w)
                },
                Err(e) => {
                    &&& e == MemError::NotMapped
                    &&& *final(self) == *old(self)
                    &&& !(l1e(old(self).pt(), old(self).root(), virt) matches Some(e1)
                        && entry_present(e1))
                },
            },
    {
        proof {
            lemma_index_bounds(virt);
            let ki = choose|ki: int|
                0 <= ki < self.roots_seq().len() && self.roots_seq()[ki] == self.root();
            assert(self.pt().contains_key(self.active_root) && tlevel(
                self.pt(),
                self.active_root,
            ) == 4);
        }
        let root = self.active_root;
        let i4 = ((virt >> 39) & 0x1FF) as usize;
        let i3 = ((virt >> 30) & 0x1FF) as usize;
        let i2 = ((virt >> 21) & 0x1FF) as usize;
        let i1 = ((virt >> 12) & 0x1FF) as usize;
        let t3 = match self.child_table(root, i4) {
            Some(t) => t,
            None => {
                return Err(MemError::NotMapped);
            },
        };
        let t2 = match self.child_table(t3, i3) {
            Some(t) => t,
            None => {
                return Err(MemError::NotMapped);
            },
        };
        let t1 = match self.child_table(t2, i2) {
            Some(t) => t,
            None => {
                return Err(MemError::NotMapped);
            },
        };
        let e1 = self.tables.read_entry(t1, i1);
        proof {
            assert(l1e(self.pt(), root, virt) == Some(e1));
            assert(leaf_table(self.pt(), root, virt) == t1);
        }
        if e1 & PAGE_PRESENT != PAGE_PRESENT {
            return Err(MemError::NotMapped);
        }
        let ghost pre = *self;
        self.tables.write_entry(t1, i1, 0);
        proof {
            let m = pre.pt();
            let m2 = self.pt();
            pre.tables.lemma_view_wf();
            assert(wf_views(m));
            assert(m2 == leaf_write_map(m, t1, l1_index(virt) as int, 0u64));
            lemma_leaf_write_wf(m, t1, l1_index(virt) as int, 0u64);
            lemma_entry_addr_props(e1);
            lemma_entry_addr_props(0);
            assert forall|f: u64| #[trigger] m2.contains_key(f) implies f as int / 4096 < self
                .allocator().total() && self.allocator().bits()[f as int / 4096] by {
                assert(m.contains_key(f));
            }
            assert(self.wf());
            assert forall|w: u64| same_page(w, virt) implies (#[trigger] translate_spec(
                m2,
                root,
                w,
            )) is None && !user_path_ok(m2, root, w) by {
                lemma_leaf_write_same(m, root, virt, 0u64, w);
            }
            assert forall|w: u64| !same_page(w, virt) implies (#[trigger] translate_spec(
                m2,
                root,
                w,
            )) == translate_spec(m, root, w) && user_path_ok(m2, root, w) == user_path_ok(
                m,
                root,
                w,
            ) && user_leaf_flags(m2, root, w) == user_leaf_flags(m, root, w) by {
                lemma_leaf_write_other(m, root, virt, 0u64, w);
            }
        }
        Ok(e1 & ENTRY_ADDR_MASK)
    }

    /// Rewrites only the flag bits of `virt`'s present leaf entry in the
    /// active address space.
    pub fn set_page_flags(&mut self, virt: u64, flags: u64) -> (r: Result<(), MemError>)
        requires
            old(self).wf(),
            flags & 0xFFF == flags,
        ensures
            final(self).wf(),
            final(self).roots_seq() == old(self).roots_seq(),
            final(self).root() == old(self).root(),
            final(self).offset() == old(self).offset(),
            final(self).stack_cursor() == old(self).stack_cursor(),
            final(self).ram_map() == old(self).ram_map(),
            final(self).allocator() == old(self).allocator(),
            match r {
                Ok(()) => {
                    &&& l1e(old(self).pt(), old(self).root(), virt) matches Some(e1)
                        && entry_present(e1)
                    &&& forall|w: u64|
                        same_page(w, virt) ==> #[trigger] l1e(
                            final(self).pt(),
                            old(self).root(),
                            w,
                        ) == Some(
                            entry_addr(l1e(old(self).pt(), old(self).root(), virt)->Some_0)
                                | flags,
                        )
                    &&& forall|w: u64|
                        !same_page(w, virt) ==> (#[trigger] translate_spec(
                            final(self).pt(),
                            old(self).root(),
                            w,
                        )) == translate_spec(old(self).pt(), old(self).root(), w) && user_path_ok(
                            final(self).pt(),
                            old(self).root(),
                            w,
                        ) == user_path_ok(old(self).pt(), old(self).root(), w) && user_leaf_flags(
                            final(self).pt(),
                            old(self).root(),
                            w,
                        ) == user_leaf_flags(old(self).pt(), old(self).root(), w)
                },
                Err(e) => {
                    &&& e == MemError::NotMapped
                    &&& *final(self) == *old(self)
                    &&& !(l1e(old(self).pt(), old(self).root(), virt) matches Some(e1)
                        && entry_present(e1))
                },
            },
    {
        proof {
            lemma_index_bounds(virt);
            let ki = choose|ki: int|
                0 <= ki < self.roots_seq().len() && self.roots_seq()[ki] == self.root();
            assert(self.pt().contains_key(self.active_root) && tlevel(
                self.pt(),
                self.active_root,
            ) == 4);
        }
        let root = self.active_root;
        let i4 = ((virt >> 39) & 0x1FF) as usize;
        let i3 = ((virt >> 30) & 0x1FF) as usize;
        let i2 = ((virt >> 21) & 0x1FF) as usize;
        let i1 = ((virt >> 12) & 0x1FF) as usize;
        let t3 = match self.child_table(root, i4) {
            Some(t) => t,
            None => {
                return Err(MemError::NotMapped);
            },
        };
        let t2 = match self.child_table(t3, i3) {
            Some(t) => t,
            None => {
                return Err(MemError::NotMapped);
            },
        };
        let t1 = match self.child_table(t2, i2) {
            Some(t) => t,
            None => {
                return Err(MemError::NotMapped);
            },
        };
        let e1 = self.tables.read_entry(t1, i1);
        proof {
            assert(l1e(self.pt(), root, virt) == Some(e1));
            assert(leaf_table(self.pt(), root, virt) == t1);
        }
        if e1 & PAGE_PRESENT != PAGE_PRESENT {
            return Err(MemError::NotMapped);
        }
        let entry = (e1 & ENTRY_ADDR_MASK) | flags;
        let ghost pre = *self;
        self.tables.write_entry(t1, i1, entry);
        proof {
            let m = pre.pt();
            let m2 = self.pt();
            pre.tables.lemma_view_wf();
            assert(wf_views(m));
            assert(m2 == leaf_write_map(m, t1, l1_index(virt) as int, entry));
            lemma_leaf_write_wf(m, t1, l1_index(virt) as int, entry);
            lemma_entry_addr_props(e1);
            assert forall|f: u64| #[trigger] m2.contains_key(f) implies f as int / 4096 < self
                .allocator().total() && self.allocator().bits()[f as int / 4096] by {
                assert(m.contains_key(f));
            }
            assert(self.wf());
            assert forall|w: u64| same_page(w, virt) implies #[trigger] l1e(m2, root, w) == Some(
                entry_addr(e1) | flags,
            ) by {
                lemma_leaf_write_same(m, root, virt, entry, w);
            }
            assert forall|w: u64| !same_page(w, virt) implies (#[trigger] translate_spec(
                m2,
                root,
                w,
            )) == translate_spec(m, root, w) && user_path_ok(m2, root, w) == user_path_ok(
                m,
                root,
                w,
            ) && user_leaf_flags(m2, root, w) == user_leaf_flags(m, root, w) by {
                lemma_leaf_write_other(m, root, virt, entry, w);
            }
        }
        Ok(())
    }

    /// Creates a new address space: a fresh zeroed root whose upper
    /// (kernel) half is copied entry-for-entry from the active root, so
    /// kernel mappings stay visible everywhere, and whose lower (user)
    /// half starts empty. Existing address spaces are untouched.
    pub fn create_address_space(&mut self) -> (r: Result<u64, MemError>)
        requires
            old(self).wf(),
        ensures
            final(self).wf(),
            final(self).root() == old(self).root(),
            final(self).offset() == old(self).offset(),
            final(self).stack_cursor() == old(self).stack_cursor(),
            final(self).ram_map() == old(self).ram_map(),
            final(self).allocator().total() == old(self).allocator().total(),
            forall|fi: int|
                0 <= fi < old(self).allocator().total() && old(self).allocator().bits()[fi]
                    ==> #[trigger] final(self).allocator().bits()[fi],
            match r {
                Ok(nr) => {
                    &&& final(self).roots_seq() == old(self).roots_seq().push(nr)
                    &&& !old(self).pt().contains_key(nr)
                    &&& final(self).pt().contains_key(nr)
                    &&& tlevel(final(self).pt(), nr) == 4
                    &&& 0 <= nr as int / 4096 < old(self).allocator().total()
                    &&& !old(self).allocator().bits()[nr as int / 4096]
                    &&& final(self).allocator().bits()[nr as int / 4096]
                    &&& final(self).allocator().used() == old(self).allocator().used() + 1
                    &&& forall|i: int| 0 <= i < 256 ==> #[trigger] tentry(final(self).pt(), nr, i) == 0u64
                    &&& forall|i: int|
                        256 <= i < 512 ==> #[trigger] tentry(final(self).pt(), nr, i) == tentry(
                            old(self).pt(),
                            old(self).root(),
                            i,
                        )
                    &&& forall|v: u64|
                        l4_index(v) < 256 ==> #[trigger] translate_spec(
                            final(self).pt(),
                            nr,
                            v,
                        ) is None
                    &&& forall|r2: u64, w: u64|
                        old(self).pt().contains_key(r2) && tlevel(old(self).pt(), r2) == 4 ==> (
                        #[trigger] translate_spec(final(self).pt(), r2, w)) == translate_spec(
                            old(self).pt(),
                            r2,
                            w,
                        ) && user_path_ok(final(self).pt(), r2, w) == user_path_ok(
                            old(self).pt(),
                            r2,
                            w,
                        ) && user_leaf_flags(final(self).pt(), r2, w) == user_leaf_flags(
                            old(self).pt(),
                            r2,
                            w,
                        )
                },
                Err(e) => e == MemError::OutOfFrames && *final(self) == *old(self) && forall|
                    fi: int,
                |
                    0 <= fi < final(self).allocator().total() ==> #[trigger] final(self).allocator().bits()[fi],
            },
    {
        proof {
            let ki = choose|ki: int|
                0 <= ki < self.roots_seq().len() && self.roots_seq()[ki] == self.root();
            assert(self.pt().contains_key(self.active_root) && tlevel(
                self.pt(),
                self.active_root,
            ) == 4);
        }
        let ghost s0 = *self;
        let nr = match self.pmm.alloc_frame() {
            Some(a) => a,
            None => {
                return Err(MemError::OutOfFrames);
            },
        };
        let ghost nidx = nr as int / 4096;
        proof {
            crate::pmm::lemma_wf_bounds(s0.allocator());
            assert(nr == nidx * 4096);
            assert(nr as int % 4096 == 0) by {
                vstd::arithmetic::div_mod::lemma_mod_multiples_basic(nidx, 4096);
            }
            assert(nr <= 0xFF_FFFF_FFFF * 4096) by {
                vstd::arithmetic::mul::lemma_mul_inequality(nidx, 0xFF_FFFF_FFFF, 4096);
            }
            assert(nr & ENTRY_ADDR_MASK == nr) by (bit_vector)
                requires
                    nr % 4096 == 0,
                    nr < 0x10_0000_0000_0000,
            ;
            vstd::arithmetic::div_mod::lemma_div_by_multiple(nidx, 4096);
            assert(!s0.pt().contains_key(nr)) by {
                if s0.pt().contains_key(nr) {
                    assert(s0.allocator().bits()[nidx]);
                }
            }
        }
        self.tables.insert_table(nr, 4);
        let ghost s1 = *self;
        proof {
            s0.tables.lemma_view_wf();
            assert(wf_views(s0.pt()));
            // a zeroed level-4 table breaks no tree rule and no walk
            lemma_entry_addr_props(0);
            assert forall|i: int| 0 <= i < 512 implies #[trigger] tentry(s1.pt(), nr, i)
                == 0u64 by {
                assert(s1.pt()[nr].1 == Seq::new(512, |j: int| 0u64));
            }
            assert forall|f: u64, ix: int|
                #![trigger tentry(s1.pt(), f, ix)]
                s1.pt().contains_key(f) && tlevel(s1.pt(), f) >= 2 && 0 <= ix < 512
                    && entry_present(tentry(s1.pt(), f, ix)) implies s1.pt().contains_key(
                entry_addr(tentry(s1.pt(), f, ix)),
            ) && tlevel(s1.pt(), entry_addr(tentry(s1.pt(), f, ix))) == (tlevel(s1.pt(), f)
                - 1) as nat by {
                if f == nr {
                    assert(tentry(s1.pt(), f, ix) == 0u64);
                    assert(false);
                } else {
                    assert(tentry(s1.pt(), f, ix) == tentry(s0.pt(), f, ix));
                    assert(entry_addr(tentry(s0.pt(), f, ix)) != nr);
                }
            }
            assert forall|f1: u64, ia: int, f2: u64, ib: int|
                #![trigger tentry(s1.pt(), f1, ia), tentry(s1.pt(), f2, ib)]
                s1.pt().contains_key(f1) && s1.pt().contains_key(f2) && 2 <= tlevel(s1.pt(), f1)
                    <= 3 && 2 <= tlevel(s1.pt(), f2) <= 3 && 0 <= ia < 512 && 0 <= ib < 512
                    && entry_present(tentry(s1.pt(), f1, ia)) && entry_present(
                    tentry(s1.pt(), f2, ib),
                ) && entry_addr(tentry(s1.pt(), f1, ia)) == entry_addr(
                    tentry(s1.pt(), f2, ib),
                ) implies f1 == f2 && ia == ib by {
                assert(tentry(s1.pt(), f1, ia) == tentry(s0.pt(), f1, ia));
                assert(tentry(s1.pt(), f2, ib) == tentry(s0.pt(), f2, ib));
            }
            assert forall|f1: u64, ia: int, f2: u64, ib: int|
                #![trigger tentry(s1.pt(), f1, ia), tentry(s1.pt(), f2, ib)]
                s1.pt().contains_key(f1) && s1.pt().contains_key(f2) && tlevel(s1.pt(), f1) == 4
                    && tlevel(s1.pt(), f2) == 4 && 0 <= ia < 512 && 0 <= ib < 512 && entry_present(
                    tentry(s1.pt(), f1, ia),
                ) && entry_present(tentry(s1.pt(), f2, ib)) && entry_addr(
                    tentry(s1.pt(), f1, ia),
                ) == entry_addr(tentry(s1.pt(), f2, ib)) implies ia == ib && (f1 == f2 || ia
                >= 256) by {
                if f1 == nr || f2 == nr {
                    assert(false);
                } else {
                    assert(tentry(s1.pt(), f1, ia) == tentry(s0.pt(), f1, ia));
                    assert(tentry(s1.pt(), f2, ib) == tentry(s0.pt(), f2, ib));
                }
            }
            assert(wf_tree(s1.pt()));
            assert forall|f: u64| #[trigger] s1.pt().contains_key(f) implies f as int / 4096
                < self.allocator().total() && self.allocator().bits()[f as int / 4096] by {
                if f == nr {
                    assert(nr as int / 4096 == nidx);
                } else {
                    assert(s0.pt().contains_key(f));
                }
            }
            assert(s1.pt() == s0.pt().insert(nr, (4nat, zero_table())));
            assert forall|r2: u64, w: u64|
                s0.pt().contains_key(r2) && tlevel(s0.pt(), r2) == 4 implies (
            #[trigger] translate_spec(s1.pt(), r2, w)) == translate_spec(s0.pt(), r2, w)
                && user_path_ok(s1.pt(), r2, w) == user_path_ok(s0.pt(), r2, w)
                && user_leaf_flags(s1.pt(), r2, w) == user_leaf_flags(s0.pt(), r2, w) by {
                lemma_insert_fresh_preserves_walks(s0.pt(), nr, 4nat, r2, w);
            }
        }
        let root = self.active_root;
        let mut i: usize = 256;
        while i < 512
            invariant
                256 <= i <= 512,
                self.wf_no_roots(),
                self.roots == s0.roots,
                self.active_root == s0.active_root,
                self.phys_offset == s0.phys_offset,
                self.next_stack_addr == s0.next_stack_addr,
                self.ram == s0.ram,
                self.pmm == s1.pmm,
                root == s0.root(),
                nr != root,
                !s0.pt().contains_key(nr),
                s0.pt().contains_key(root),
                tlevel(s0.pt(), root) == 4,
                self.pt().contains_key(nr),
                tlevel(self.pt(), nr) == 4,
                self.pt().contains_key(root),
                tlevel(self.pt(), root) == 4,
                wf_views(self.pt()),
                wf_tree(self.pt()),
                forall|k: int|
                    0 <= k < s0.roots_seq().len() ==> self.pt().contains_key(
                        #[trigger] s0.roots_seq()[k],
                    ) && tlevel(self.pt(), s0.roots_seq()[k]) == 4,
                forall|f: u64|
                    #[trigger] self.pt().contains_key(f) ==> f as int / 4096 < self.allocator()
                        .total() && self.allocator().bits()[f as int / 4096],
                forall|j: int| 0 <= j < 256 ==> #[trigger] tentry(self.pt(), nr, j) == 0u64,
                forall|j: int|
                    256 <= j < i ==> #[trigger] tentry(self.pt(), nr, j) == tentry(
                        s0.pt(),
                        root,
                        j,
                    ),
                forall|j: int| i <= j < 512 ==> #[trigger] tentry(self.pt(), nr, j) == 0u64,
                forall|f: u64|
                    s0.pt().contains_key(f) ==> #[trigger] self.pt().contains_key(f) && tlevel(
                        self.pt(),
                        f,
                    ) == tlevel(s0.pt(), f),
                forall|f: u64, j: int|
                    s0.pt().contains_key(f) && 0 <= j < 512 && f != nr ==> #[trigger] tentry(
                        self.pt(),
                        f,
                        j,
                    ) == tentry(s0.pt(), f, j),
                forall|r2: u64, w: u64|
                    s0.pt().contains_key(r2) && tlevel(s0.pt(), r2) == 4 ==> (
                    #[trigger] translate_spec(self.pt(), r2, w)) == translate_spec(s0.pt(), r2, w)
                        && user_path_ok(self.pt(), r2, w) == user_path_ok(s0.pt(), r2, w)
                        && user_leaf_flags(self.pt(), r2, w) == user_leaf_flags(s0.pt(), r2, w),
            decreases 512 - i,
        {
            let ghost sp = *self;
            let e = self.tables.read_entry(root, i);
            self.tables.write_entry(nr, i, e);
            proof {
                let mp = sp.pt();
                let mq = self.pt();
                assert(mq == mp.insert(nr, (tlevel(mp, nr), mp[nr].1.update(i as int, e))));
                lemma_l4_copy_wf(mp, root, nr, i as int);
                assert(e == tentry(s0.pt(), root, i as int));
                assert(mp[nr].1.len() == 512);
                assert forall|j: int| 0 <= j < 512 && j != i as int implies #[trigger] tentry(
                    mq,
                    nr,
                    j,
                ) == tentry(mp, nr, j) by {}
                assert(tentry(mq, nr, i as int) == e);
                assert forall|f: u64, j: int|
                    s0.pt().contains_key(f) && 0 <= j < 512 && f != nr implies #[trigger] tentry(
                    mq,
                    f,
                    j,
                ) == tentry(s0.pt(), f, j) by {
                    assert(mq[f] == mp[f]);
                    assert(tentry(mq, f, j) == tentry(mp, f, j));
                }
                assert forall|r2: u64, w: u64|
                    s0.pt().contains_key(r2) && tlevel(s0.pt(), r2) == 4 implies (
                #[trigger] translate_spec(mq, r2, w)) == translate_spec(s0.pt(), r2, w)
                    && user_path_ok(mq, r2, w) == user_path_ok(s0.pt(), r2, w) && user_leaf_flags(
                    mq,
                    r2,
                    w,
                ) == user_leaf_flags(s0.pt(), r2, w) by {
                    assert(r2 != nr);
                    lemma_l4_write_other_roots(mp, nr, i as int, e, r2, w);
                }
            }
            i = i + 1;
        }
        self.roots.push(nr);
        proof {
            assert(self.roots_seq() == s0.roots_seq().push(nr));
            assert(self.roots_seq().contains(self.root())) by {
                let ki = choose|ki: int|
                    0 <= ki < s0.roots_seq().len() && s0.roots_seq()[ki] == s0.root();
                assert(self.roots_seq()[ki] == s0.root());
            }
            assert(self.wf());
            lemma_entry_addr_props(0);
            assert forall|v: u64| l4_index(v) < 256 implies #[trigger] translate_spec(
                self.pt(),
                nr,
                v,
            ) is None by {
                lemma_index_bounds(v);
                assert(tentry(self.pt(), nr, l4_index(v) as int) == 0u64);
            }
        }
        Ok(nr)
    }

    /// Makes `root` the active address space: what the hardware's
    /// root-table register switch does to the translation model.
    pub fn switch_address_space(&mut self, root: u64)
        requires
            old(self).wf(),
            old(self).roots_seq().contains(root),
        ensures
            final(self).wf(),
            final(self).root() == root,
            final(self).pt() == old(self).pt(),
            final(self).roots_seq() == old(self).roots_seq(),
            final(self).offset() == old(self).offset(),
            final(self).stack_cursor() == old(self).stack_cursor(),
            final(self).ram_map() == old(self).ram_map(),
            final(self).allocator() == old(self).allocator(),
    {
        self.active_root = root;
    }

    /// Carves a kernel stack of `size_in_pages` pages out of the stack
    /// region, mapping each page present and writable, with one
    /// deliberately unmapped guard page below the stack's floor: any
    /// access below the stack traps. Returns the stack top.
    pub fn allocate_kernel_stack_with_guard(&mut self, size_in_pages: usize) -> (r: Result<
        u64,
        MemError,
    >)
        requires
            old(self).wf(),
            old(self).stack_cursor() + (size_in_pages + 1) * 4096 <= u64::MAX,
        ensures
            final(self).wf(),
            final(self).roots_seq() == old(self).roots_seq(),
            final(self).root() == old(self).root(),
            final(self).offset() == old(self).offset(),
            final(self).ram_map() == old(self).ram_map(),
            final(self).allocator().total() == old(self).allocator().total(),
            match r {
                Ok(top) => {
                    let start = old(self).stack_cursor();
                    let base = start + 4096;
                    &&& size_in_pages >= 1
                    &&& top == base + size_in_pages * 4096
                    &&& final(self).stack_cursor() == start + (size_in_pages + 1) * 4096
                    &&& forall|k: int|
                        1 <= k <= size_in_pages ==> ((#[trigger] present_leaf_flags(
                            final(self).pt(),
                            old(self).root(),
                            (start + k * 4096) as u64,
                        )) matches Some(fl) && entry_writable(fl) && !entry_user(fl)
                            && translate_spec(
                            final(self).pt(),
                            old(self).root(),
                            (start + k * 4096) as u64,
                        ) is Some)
                    &&& forall|w: u64|
                        same_page(w, start as u64) ==> (#[trigger] translate_spec(
                            final(self).pt(),
                            old(self).root(),
                            w,
                        )) == translate_spec(old(self).pt(), old(self).root(), w)
                    &&& forall|w: u64|
                        l4_index(w) < 480 ==> (#[trigger] translate_spec(
                            final(self).pt(),
                            old(self).root(),
                            w,
                        )) == translate_spec(old(self).pt(), old(self).root(), w) && user_path_ok(
                            final(self).pt(),
                            old(self).root(),
                            w,
                        ) == user_path_ok(old(self).pt(), old(self).root(), w) && user_leaf_flags(
                            final(self).pt(),
                            old(self).root(),
                            w,
                        ) == user_leaf_flags(old(self).pt(), old(self).root(), w)
                },
                Err(e) => {
                    &&& e != MemError::NotMapped
                    &&& (e == MemError::InvalidSize <==> size_in_pages == 0)
                    &&& (e == MemError::InvalidSize ==> *final(self) == *old(self))
                    &&& (e == MemError::OutOfFrames ==> forall|fi: int|
                        0 <= fi < final(self).allocator().total()
                            ==> #[trigger] final(self).allocator().bits()[fi])
                    &&& (e == MemError::AlreadyMapped ==> exists|k: int|
                        1 <= k <= size_in_pages && (#[trigger] translate_spec(
                            old(self).pt(),
                            old(self).root(),
                            (old(self).stack_cursor() + k * 4096) as u64,
                        )) is Some)
                },
            },
    {
        if size_in_pages == 0 {
            return Err(MemError::InvalidSize);
        }
        let ghost s0 = *self;
        let stack_start = self.next_stack_addr;
        self.next_stack_addr = stack_start + ((size_in_pages as u64) + 1) * 4096;
        let stack_base = stack_start + 4096;
        proof {
            assert((PAGE_PRESENT | PAGE_WRITABLE) == 3u64) by (bit_vector);
            assert(3u64 & 0xFFF == 3u64 && 3u64 & 1 == 1u64 && 3u64 & 2 == 2u64) by (bit_vector);
            vstd::arithmetic::div_mod::lemma_mod_multiples_basic(size_in_pages as int + 1, 4096);
            vstd::arithmetic::div_mod::lemma_add_mod_noop(
                stack_start as int,
                (size_in_pages as int + 1) * 4096,
                4096,
            );
            assert(self.stack_cursor() % 4096 == 0);
            assert(self.wf());
        }
        let ghost s1 = *self;
        let mut k: usize = 0;
        while k < size_in_pages
            invariant
                k <= size_in_pages,
                1 <= size_in_pages,
                self.wf(),
                s0 == *old(self),
                stack_start == s0.stack_cursor(),
                stack_base == stack_start + 4096,
                stack_start % 4096 == 0,
                stack_start >= KERNEL_STACK_REGION,
                stack_start + (size_in_pages + 1) * 4096 <= u64::MAX,
                self.stack_cursor() == stack_start + (size_in_pages + 1) * 4096,
                self.roots_seq() == s0.roots_seq(),
                self.root() == s0.root(),
                self.offset() == s0.offset(),
                self.ram_map() == s0.ram_map(),
                self.allocator().total() == s0.allocator().total(),
                forall|j: int|
                    1 <= j <= k ==> ((#[trigger] present_leaf_flags(
                        self.pt(),
                        s0.root(),
                        (stack_start + j * 4096) as u64,
                    )) matches Some(fl) && entry_writable(fl) && !entry_user(fl)
                        && translate_spec(
                        self.pt(),
                        s0.root(),
                        (stack_start + j * 4096) as u64,
                    ) is Some),
                forall|j: int|
                    k < j <= size_in_pages ==> (#[trigger] translate_spec(
                        self.pt(),
                        s0.root(),
                        (stack_start + j * 4096) as u64,
                    )) == translate_spec(
                        s0.pt(),
                        s0.root(),
                        (stack_start + j * 4096) as u64,
                    ),
                forall|w: u64|
                    same_page(w, stack_start as u64) ==> (#[trigger] translate_spec(
                        self.pt(),
                        s0.root(),
                        w,
                    )) == translate_spec(s0.pt(), s0.root(), w),
                forall|w: u64|
                    l4_index(w) < 480 ==> (#[trigger] translate_spec(self.pt(), s0.root(), w))
                        == translate_spec(s0.pt(), s0.root(), w) && user_path_ok(
                        self.pt(),
                        s0.root(),
                        w,
                    ) == user_path_ok(s0.pt(), s0.root(), w) && user_leaf_flags(
                        self.pt(),
                        s0.root(),
                        w,
                    ) == user_leaf_flags(s0.pt(), s0.root(), w),
            decreases size_in_pages - k,
        {
            let page_addr = stack_base + (k as u64) * 4096;
            proof {
                assert((PAGE_PRESENT | PAGE_WRITABLE) == 3u64) by (bit_vector);
                assert(3u64 & 0xFFF == 3u64 && 3u64 & 1 == 1u64 && 3u64 & 2 == 2u64)
                    by (bit_vector);
                assert(page_addr == stack_start + (k + 1) * 4096);
                assert(page_addr % 4096 == 0 && page_addr >= KERNEL_STACK_REGION) by {
                    vstd::arithmetic::div_mod::lemma_mod_multiples_basic(k as int + 1, 4096);
                    vstd::arithmetic::div_mod::lemma_add_mod_noop(
                        stack_start as int,
                        (k as int + 1) * 4096,
                        4096,
                    );
                }
            }
            let ghost sa = *self;
            let frame = match self.pmm.alloc_frame() {
                Some(f) => f,
                None => {
                    return Err(MemError::OutOfFrames);
                },
            };
            let ghost sp = *self;
            proof {
                crate::pmm::lemma_wf_bounds(sa.allocator());
                crate::pmm::lemma_wf_bounds(sp.allocator());
                let fidx = frame as int / 4096;
                assert(frame == fidx * 4096);
                assert(frame <= 0xFF_FFFF_FFFF * 4096) by {
                    vstd::arithmetic::mul::lemma_mul_inequality(fidx, 0xFF_FFFF_FFFF, 4096);
                }
                assert forall|f: u64| #[trigger] self.pt().contains_key(f) implies f as int / 4096
                    < self.allocator().total() && self.allocator().bits()[f as int / 4096] by {
                    assert(sa.allocator().bits()[f as int / 4096]);
                }
                assert(self.wf());
            }
            let ghost smap = *self;
            match self.map_page(page_addr, frame, PAGE_PRESENT | PAGE_WRITABLE) {
                Ok(_) => {},
                Err(e) => {
                    proof {
                        if e == MemError::AlreadyMapped {
                            assert(translate_spec(smap.pt(), s0.root(), page_addr) is Some);
                            assert(translate_spec(smap.pt(), s0.root(), page_addr)
                                == translate_spec(s0.pt(), s0.root(), page_addr));
                            assert(page_addr == (s0.stack_cursor() + (k + 1) * 4096) as u64);
                        }
                    }
                    return Err(e);
                },
            }
            proof {
                lemma_index_bounds(page_addr);
                // this page is fresh territory: it is not the guard page,
                // not a lower-half page, and not an earlier stack page
                assert(3u64 & 4 == 0u64) by (bit_vector);
                assert forall|j: int|
                    k + 1 < j <= size_in_pages implies (#[trigger] translate_spec(
                    self.pt(),
                    s0.root(),
                    (stack_start + j * 4096) as u64,
                )) == translate_spec(
                    s0.pt(),
                    s0.root(),
                    (stack_start + j * 4096) as u64,
                ) by {
                    let pj = (stack_start + j * 4096) as u64;
                    assert(pj % 4096 == 0 && pj >= KERNEL_STACK_REGION) by {
                        vstd::arithmetic::div_mod::lemma_mod_multiples_basic(j, 4096);
                        vstd::arithmetic::div_mod::lemma_add_mod_noop(
                            stack_start as int,
                            j * 4096,
                            4096,
                        );
                    }
                    assert(pj != page_addr);
                    lemma_high_pages_distinct(pj, page_addr);
                }
                assert forall|j: int|
                    1 <= j <= k + 1 implies (#[trigger] present_leaf_flags(
                    self.pt(),
                    s0.root(),
                    (stack_start + j * 4096) as u64,
                )) matches Some(fl) && entry_writable(fl) && !entry_user(fl) && translate_spec(
                    self.pt(),
                    s0.root(),
                    (stack_start + j * 4096) as u64,
                ) is Some by {
                    let pj = (stack_start + j * 4096) as u64;
                    if j == k + 1 {
                        assert(pj == page_addr);
                        assert(l1e(self.pt(), s0.root(), pj) == Some(page_base(frame) | 3u64));
                        lemma_index_bounds(frame);
                        assert(page_base(frame) & ENTRY_ADDR_MASK == page_base(frame))
                            by (bit_vector)
                            requires
                                frame < 0x10_0000_0000_0000,
                        ;
                        lemma_make_entry(page_base(frame), 3u64);
                        assert(present_leaf_flags(self.pt(), s0.root(), pj) == Some(3u64));
                        assert(translate_spec(self.pt(), s0.root(), pj) is Some);
                    } else {
                        assert(pj % 4096 == 0 && pj >= KERNEL_STACK_REGION) by {
                            vstd::arithmetic::div_mod::lemma_mod_multiples_basic(j, 4096);
                            vstd::arithmetic::div_mod::lemma_add_mod_noop(
                                stack_start as int,
                                j * 4096,
                                4096,
                            );
                        }
                        assert(pj != page_addr);
                        lemma_high_pages_distinct(pj, page_addr);
                        assert(!same_page(pj, page_addr));
                    }
                }
                assert forall|w: u64| same_page(w, stack_start as u64) implies (
                #[trigger] translate_spec(self.pt(), s0.root(), w)) == translate_spec(
                    s0.pt(),
                    s0.root(),
                    w,
                ) by {
                    lemma_high_pages_distinct(stack_start, page_addr);
                    lemma_same_page_same_walk(sp.pt(), s0.root(), w, stack_start);
                    lemma_same_page_same_walk(self.pt(), s0.root(), w, stack_start);
                    assert(!same_page(stack_start, page_addr));
                }
                assert forall|w: u64| l4_index(w) < 480 implies (#[trigger] translate_spec(
                    self.pt(),
                    s0.root(),
                    w,
                )) == translate_spec(s0.pt(), s0.root(), w) && user_path_ok(
                    self.pt(),
                    s0.root(),
                    w,
                ) == user_path_ok(s0.pt(), s0.root(), w) && user_leaf_flags(
                    self.pt(),
                    s0.root(),
                    w,
                ) == user_leaf_flags(s0.pt(), s0.root(), w) by {
                    lemma_high_page_index(page_addr);
                    assert(!same_page(w, page_addr));
                }
            }
            k = k + 1;
        }
        let stack_top = stack_base + (size_in_pages as u64) * 4096;
        Ok(stack_top)
    }

    /// Unmaps the null page so null dereferences trap; a null page that
    /// was never mapped is a benign no-op. Either way nothing translates
    /// at address zero afterwards.
    pub fn unmap_null_page(&mut self) -> (r: Result<(), MemError>)
        requires
            old(self).wf(),
        ensures
            final(self).wf(),
            r is Ok,
            final(self).roots_seq() == old(self).roots_seq(),
            final(self).root() == old(self).root(),
            final(self).offset() == old(self).offset(),
            final(self).stack_cursor() == old(self).stack_cursor(),
            final(self).ram_map() == old(self).ram_map(),
            final(self).allocator() == old(self).allocator(),
            translate_spec(final(self).pt(), final(self).root(), 0) is None,
            forall|w: u64|
                !same_page(w, 0) ==> (#[trigger] translate_spec(
                    final(self).pt(),
                    old(self).root(),
                    w,
                )) == translate_spec(old(self).pt(), old(self).root(), w) && user_path_ok(
                    final(self).pt(),
                    old(self).root(),
                    w,
                ) == user_path_ok(old(self).pt(), old(self).root(), w),
    {
        match self.unmap_page(0) {
            Ok(_) => Ok(()),
            Err(_) => Ok(()),
        }
    }

    /// Reads one byte through the active address space, or `None` when
    /// the address is unmapped.
    pub fn read_virt_byte(&self, v: u64) -> (r: Option<u8>)
        requires
            self.wf(),
        ensures
            r == match translate_spec(self.pt(), self.root(), v) {
                Some(p) => Some(phys_byte(self.ram_map(), p)),
                None => None::<u8>,
            },
    {
        match self.translate(v) {
            Some(p) => Some(self.ram.read_byte(p)),
            None => None,
        }
    }

    /// Writes one byte through the active address space; an unmapped
    /// address is an error and nothing changes.
    pub fn write_virt_byte(&mut self, v: u64, b: u8) -> (r: Result<(), MemError>)
        requires
            old(self).wf(),
        ensures
            final(self).wf(),
            final(self).pt() == old(self).pt(),
            final(self).roots_seq() == old(self).roots_seq(),
            final(self).root() == old(self).root(),
            final(self).offset() == old(self).offset(),
            final(self).stack_cursor() == old(self).stack_cursor(),
            final(self).allocator() == old(self).allocator(),
            match r {
                Ok(()) => {
                    &&& translate_spec(old(self).pt(), old(self).root(), v) is Some
                    &&& ({
                        let p = translate_spec(old(self).pt(), old(self).root(), v)->Some_0;
                        &&& phys_byte(final(self).ram_map(), p) == b
                        &&& forall|q: u64|
                            q != p ==> phys_byte(final(self).ram_map(), q) == phys_byte(
                                old(self).ram_map(),
                                q,
                            )
                    })
                },
                Err(e) => {
                    &&& e == MemError::NotMapped
                    &&& translate_spec(old(self).pt(), old(self).root(), v) is None
                    &&& *final(self) == *old(self)
                },
            },
    {
        let p = match self.translate(v) {
            Some(p) => p,
            None => {
                return Err(MemError::NotMapped);
            },
        };
        self.ram.write_byte(p, b);
        Ok(())
    }

    /// Allocates one physical frame from the owned allocator.
    pub fn alloc_frame(&mut self) -> (r: Option<u64>)
        requires
            old(self).wf(),
        ensures
            final(self).wf(),
            final(self).pt() == old(self).pt(),
            final(self).roots_seq() == old(self).roots_seq(),
            final(self).root() == old(self).root(),
            final(self).offset() == old(self).offset(),
            final(self).stack_cursor() == old(self).stack_cursor(),
            final(self).ram_map() == old(self).ram_map(),
            final(self).allocator().total() == old(self).allocator().total(),
            match r {
                None => final(self).allocator() == old(self).allocator() && forall|fi: int|
                    0 <= fi < final(self).allocator().total()
                        ==> #[trigger] final(self).allocator().bits()[fi],
                Some(addr) => {
                    let idx = addr as int / 4096;
                    &&& addr == idx * 4096
                    &&& addr < 0x10_0000_0000_0000
                    &&& 0 <= idx < old(self).allocator().total()
                    &&& !old(self).allocator().bits()[idx]
                    &&& final(self).allocator().bits() == old(self).allocator().bits().update(
                        idx,
                        true,
                    )
                    &&& final(self).allocator().used() == old(self).allocator().used() + 1
                },
            },
    {
        let r = self.pmm.alloc_frame();
        proof {
            if r is Some {
                crate::pmm::lemma_wf_bounds(old(self).allocator());
                let idx = r->Some_0 as int / 4096;
                assert(r->Some_0 <= 0xFF_FFFF_FFFF * 4096) by {
                    vstd::arithmetic::mul::lemma_mul_inequality(idx, 0xFF_FFFF_FFFF, 4096);
                }
            }
        }
        r
    }

    /// Returns a frame to the owned allocator. The caller must not free a
    /// frame that still backs a page table.
    pub fn free_frame(&mut self, addr: u64)
        requires
            old(self).wf(),
            !old(self).pt().contains_key(page_base(addr)),
        ensures
            final(self).wf(),
            final(self).pt() == old(self).pt(),
            final(self).roots_seq() == old(self).roots_seq(),
            final(self).root() == old(self).root(),
            final(self).offset() == old(self).offset(),
            final(self).stack_cursor() == old(self).stack_cursor(),
            final(self).ram_map() == old(self).ram_map(),
            final(self).allocator().total() == old(self).allocator().total(),
            ({
                let f = addr as int / 4096;
                if 0 <= f < old(self).allocator().total() && old(self).allocator().bits()[f] {
                    &&& final(self).allocator().bits() == old(self).allocator().bits().update(
                        f,
                        false,
                    )
                    &&& final(self).allocator().used() == old(self).allocator().used() - 1
                } else {
                    final(self).allocator() == old(self).allocator()
                }
            }),
    {
        proof {
            lemma_index_bounds(addr);
            crate::pmm::lemma_wf_bounds(self.allocator());
            assert forall|f: u64| #[trigger] self.pt().contains_key(f) implies f != page_base(
                addr,
            ) by {}
        }
        let ghost pre = *self;
        self.pmm.free_frame(addr);
        proof {
            let fidx = addr as int / 4096;
            assert forall|f: u64| #[trigger] self.pt().contains_key(f) implies f as int / 4096
                < self.allocator().total() && self.allocator().bits()[f as int / 4096] by {
                if f as int / 4096 == fidx {
                    assert(f % 4096 == 0) by {
                        pre.tables.lemma_view_wf();
                    }
                    assert(f == fidx * 4096) by {
                        vstd::arithmetic::div_mod::lemma_fundamental_div_mod(f as int, 4096);
                    }
                    assert(page_base(addr) == fidx * 4096) by {
                        lemma_index_bounds(addr);
                    }
                    assert(false);
                }
            }
            assert(self.wf());
        }
    }

    /// Returns `(used_frames, total_frames)` of the owned allocator.
    pub fn stats(&self) -> (r: (usize, usize))
        ensures
            r.0 == self.allocator().used(),
            r.1 == self.allocator().total(),
    {
        self.pmm.stats()
    }

    /// True iff user code may read every byte of `[addr, addr + len)`:
    /// the range lies in the user half, does not wrap, and every page it
    /// touches is present and user-accessible at all four levels.
    pub fn is_user_readable(&self, addr: u64, len: u64) -> (r: bool)
        requires
            self.wf(),
        ensures
            r == user_range_readable(self.pt(), self.root(), addr, len),
    {
        self.check_user_range(addr, len, false)
    }

    /// Like `is_user_readable`, and every page's leaf entry is writable.
    pub fn is_user_writable(&self, addr: u64, len: u64) -> (r: bool)
        requires
            self.wf(),
        ensures
            r == user_range_writable(self.pt(), self.root(), addr, len),
    {
        self.check_user_range(addr, len, true)
    }

    fn check_user_range(&self, addr: u64, len: u64, need_write: bool) -> (r: bool)
        requires
            self.wf(),
        ensures
            !need_write ==> r == user_range_readable(self.pt(), self.root(), addr, len),
            need_write ==> r == user_range_writable(self.pt(), self.root(), addr, len),
    {
        let ghost m = self.pt();
        let ghost root = self.root();
        if addr >= USER_SPACE_END {
            return false;
        }
        if len > u64::MAX - addr {
            return false;
        }
        let end = addr + len;
        if end >= USER_SPACE_END {
            return false;
        }
        proof {
            lemma_index_bounds(addr);
            lemma_page_round_up(end);
        }
        let start_page = addr & !0xFFFu64;
        let end_page = (end + 0xFFF) & !0xFFFu64;
        let ghost first = addr as int / 4096;
        let ghost past = (addr + len + 4095) as int / 4096;
        proof {
            assert(start_page == (addr / 4096) * 4096);
            vstd::arithmetic::div_mod::lemma_div_by_multiple(first, 4096);
            vstd::arithmetic::div_mod::lemma_div_by_multiple(past, 4096);
            assert(end_page == past * 4096);
        }
        let mut pa = start_page;
        while pa < end_page
            invariant
                self.wf(),
                m == self.pt(),
                root == self.root(),
                addr < USER_SPACE_END,
                addr + len < USER_SPACE_END,
                first == addr as int / 4096,
                past == (addr + len + 4095) / 4096,
                pa % 4096 == 0,
                first * 4096 <= pa,
                pa as int <= past * 4096,
                end_page == past * 4096,
                forall|p: int|
                    first <= p < pa as int / 4096 ==> #[trigger] user_path_ok(
                        m,
                        root,
                        (p * 4096) as u64,
                    ) && (need_write ==> entry_writable(l1e(m, root, (p * 4096) as u64)->Some_0)),
            decreases end_page - pa,
        {
            let flags = match self.walk_user_flags(pa) {
                Some(fl) => fl,
                None => {
                    proof {
                        let p = pa as int / 4096;
                        vstd::arithmetic::div_mod::lemma_div_by_multiple(p, 4096);
                        assert((p * 4096) as u64 == pa);
                        assert(first <= p < past) by {
                            vstd::arithmetic::div_mod::lemma_div_is_ordered(
                                first * 4096,
                                pa as int,
                                4096,
                            );
                            vstd::arithmetic::div_mod::lemma_fundamental_div_mod(pa as int, 4096);
                            assert(pa as int == 4096 * p);
                            assert((pa as int) < past * 4096);
                            if p >= past {
                                vstd::arithmetic::mul::lemma_mul_inequality(past, p, 4096);
                                assert(false);
                            }
                        }
                        assert(!user_path_ok(m, root, (p * 4096) as u64));
                    }
                    return false;
                },
            };
            if need_write && flags & PAGE_WRITABLE != PAGE_WRITABLE {
                proof {
                    let p = pa as int / 4096;
                    vstd::arithmetic::div_mod::lemma_div_by_multiple(p, 4096);
                    assert((p * 4096) as u64 == pa);
                    assert(first <= p < past) by {
                        vstd::arithmetic::div_mod::lemma_div_is_ordered(
                            first * 4096,
                            pa as int,
                            4096,
                        );
                        vstd::arithmetic::div_mod::lemma_fundamental_div_mod(pa as int, 4096);
                        assert(pa as int == 4096 * p);
                        assert((pa as int) < past * 4096);
                        if p >= past {
                            vstd::arithmetic::mul::lemma_mul_inequality(past, p, 4096);
                            assert(false);
                        }
                    }
                    let e1 = l1e(m, root, pa)->Some_0;
                    lemma_entry_addr_props(e1);
                    assert(!entry_writable(l1e(m, root, (p * 4096) as u64)->Some_0));
                }
                return false;
            }
            proof {
                let p = pa as int / 4096;
                vstd::arithmetic::div_mod::lemma_div_by_multiple(p, 4096);
                assert((p * 4096) as u64 == pa);
                assert(pa as int == p * 4096);
                assert(user_path_ok(m, root, pa));
                if need_write {
                    let e1 = l1e(m, root, pa)->Some_0;
                    lemma_entry_addr_props(e1);
                    assert(flags == entry_flags(e1));
                    assert(entry_writable(e1));
                }
                assert forall|q: int|
                    first <= q < (pa + 4096) as int / 4096 implies #[trigger] user_path_ok(
                    m,
                    root,
                    (q * 4096) as u64,
                ) && (need_write ==> entry_writable(l1e(m, root, (q * 4096) as u64)->Some_0)) by {
                    vstd::arithmetic::div_mod::lemma_div_by_multiple(p + 1, 4096);
                    assert((pa + 4096) as int / 4096 == p + 1);
                    if q == p {
                        assert((q * 4096) as u64 == pa);
                    } else {
                        assert(first <= q < pa as int / 4096);
                    }
                    assert(user_path_ok(m, root, (q * 4096) as u64));
                    if need_write {
                        assert(entry_writable(l1e(m, root, (q * 4096) as u64)->Some_0));
                    }
                }
            }
            pa = pa + 4096;
        }
        proof {
            assert(pa as int / 4096 == past) by {
                vstd::arithmetic::div_mod::lemma_div_by_multiple(past, 4096);
            }
        }
        true
    }

}

/// The owned allocator of a well-formed memory subsystem is itself
/// well-formed; callers outside this module need this to reason about
/// its bit vector.
pub proof fn lemma_allocator_wf(mm: MemoryManager)
    requires
        mm.wf(),
    ensures
        mm.allocator().wf(),
{
}

/// The byte a virtual address reads through an address space and the
/// modelled RAM; unmapped addresses read as zero.
pub open spec fn virt_byte(
    m: Map<u64, (nat, Seq<u64>)>,
    ram: Map<u64, Seq<u8>>,
    root: u64,
    v: u64,
) -> u8 {
    match translate_spec(m, root, v) {
        Some(p) => phys_byte(ram, p),
        None => 0u8,
    }
}

/// Inside a user-readable range every address translates: the range
/// check demanded a present, user-accessible path for each page.
pub proof fn lemma_user_range_translate(
    m: Map<u64, (nat, Seq<u64>)>,
    root: u64,
    addr: u64,
    len: u64,
    v: u64,
)
    requires
        user_range_readable(m, root, addr, len),
        addr <= v < addr + len,
    ensures
        translate_spec(m, root, v) is Some,
{
    let p = v as int / 4096;
    lemma_index_bounds(v);
    vstd::arithmetic::div_mod::lemma_div_is_ordered(addr as int, v as int, 4096);
    assert(p < (addr + len + 4095) / 4096) by {
        vstd::arithmetic::div_mod::lemma_div_plus_one(v as int, 4096);
        vstd::arithmetic::div_mod::lemma_div_is_ordered(4096 + v as int, addr + len + 4095, 4096);
    }
    assert(user_path_ok(m, root, (p * 4096) as u64));
    vstd::arithmetic::div_mod::lemma_div_by_multiple(p, 4096);
    assert((p * 4096) as u64 == page_base(v));
    lemma_page_base_same_indices(v, v);
    lemma_same_page_same_walk(m, root, page_base(v), v);
    assert(user_path_ok(m, root, v));
}

} // verus!
