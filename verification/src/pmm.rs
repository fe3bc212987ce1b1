//! Physical memory manager: a bitmap frame allocator.
//!
//! One bit per 4 KiB frame (1 = used), a cached total, a used-frame counter
//! and a rotating next-fit cursor. Created once from the boot memory map;
//! mutated only through `alloc_frame` / `free_frame` / `alloc_contiguous`.

use vstd::prelude::*;

verus! {

/// Size in bytes of a physical page frame.
pub const FRAME_SIZE: u64 = 4096;

/// One region of the boot-time physical memory map.
#[derive(Clone, Copy, PartialEq, Eq, Structural, Debug)]
pub struct MemRegion {
    /// First byte of the region.
    pub start: u64,
    /// One past the last byte of the region.
    pub end: u64,
    /// Whether the region may be allocated from.
    pub usable: bool,
}

/// True iff bit `i` of `b` is set.
pub open spec fn bit_of(b: u8, i: u8) -> bool {
    (b >> i) & 1u8 == 1u8
}

/// Number of `true` entries of `s`.
pub closed spec fn count_trues(s: Seq<bool>) -> nat
    decreases s.len(),
{
    if s.len() == 0 {
        0
    } else {
        count_trues(s.drop_last()) + (if s.last() { 1nat } else { 0nat })
    }
}

proof fn lemma_count_trues_le_len(s: Seq<bool>)
    ensures
        count_trues(s) <= s.len(),
    decreases s.len(),
{
    if s.len() > 0 {
        lemma_count_trues_le_len(s.drop_last());
    }
}

proof fn lemma_count_trues_update(s: Seq<bool>, i: int, v: bool)
    requires
        0 <= i < s.len(),
    ensures
        count_trues(s.update(i, v)) == count_trues(s) - (if s[i] {
            1int
        } else {
            0int
        }) + (if v {
            1int
        } else {
            0int
        }),
    decreases s.len(),
{
    if i == s.len() - 1 {
        assert(s.update(i, v).drop_last() =~= s.drop_last());
    } else {
        lemma_count_trues_update(s.drop_last(), i, v);
        assert(s.update(i, v).drop_last() =~= s.drop_last().update(i, v));
    }
}

proof fn lemma_count_trues_pos(s: Seq<bool>, i: int)
    requires
        0 <= i < s.len(),
        s[i],
    ensures
        count_trues(s) >= 1,
    decreases s.len(),
{
    if i < s.len() - 1 {
        lemma_count_trues_pos(s.drop_last(), i);
    }
}

proof fn lemma_u8_set_bit(b: u8, i: u8, j: u8)
    by (bit_vector)
    requires
        i < 8,
        j < 8,
    ensures
        bit_of(b | (1u8 << i), i),
        i != j ==> bit_of(b | (1u8 << i), j) == bit_of(b, j),
{
}

proof fn lemma_u8_clear_bit(b: u8, i: u8, j: u8)
    by (bit_vector)
    requires
        i < 8,
        j < 8,
    ensures
        !bit_of(b & !(1u8 << i), i),
        i != j ==> bit_of(b & !(1u8 << i), j) == bit_of(b, j),
{
}

/// Bitmap allocator over physical page frames.
pub struct BitmapAllocator {
    bitmap: Vec<u8>,
    total_frames: usize,
    used_frames: usize,
    search_start: usize,
}

impl BitmapAllocator {
    /// True iff frame `f` is marked used.
    pub closed spec fn frame_used(self, f: int) -> bool {
        bit_of(self.bitmap@[f / 8], (f % 8) as u8)
    }

    /// The whole bitmap as a sequence of used-flags, one per frame.
    pub closed spec fn bits(self) -> Seq<bool> {
        Seq::new(self.total_frames as nat, |i: int| self.frame_used(i))
    }

    /// Total number of frames tracked.
    pub closed spec fn total(self) -> int {
        self.total_frames as int
    }

    /// Cached number of used frames.
    pub closed spec fn used(self) -> int {
        self.used_frames as int
    }

    /// Position the next-fit scan starts from.
    pub closed spec fn cursor(self) -> int {
        self.search_start as int
    }

    /// Structural shape: the bitmap covers exactly the tracked frames.
    pub closed spec fn wf_shape(self) -> bool {
        &&& self.bitmap@.len() == (self.total_frames + 7) / 8
        &&& self.total_frames <= 0x100_0000_0000
        &&& self.search_start <= self.total_frames
    }

    /// Well-formed allocator: shape plus an accurate used-frame counter.
    pub closed spec fn wf(self) -> bool {
        &&& self.wf_shape()
        &&& self.used_frames == count_trues(self.bits())
    }

    /// Marks frame `frame` used; out-of-range frames are ignored.
    /// Leaves the used-frame counter to the caller.
    fn set_bit(&mut self, frame: usize)
        requires
            old(self).wf_shape(),
        ensures
            final(self).wf_shape(),
            final(self).total() == old(self).total(),
            final(self).used() == old(self).used(),
            final(self).cursor() == old(self).cursor(),
            frame < old(self).total() ==> final(self).bits() == old(self).bits().update(
                frame as int,
                true,
            ),
            frame >= old(self).total() ==> final(self).bits() == old(self).bits(),
    {
        if frame < self.total_frames {
            let byte = self.bitmap[frame / 8] | (1u8 << (frame % 8));
            self.bitmap.set(frame / 8, byte);
            proof {
                let f = frame as int;
                assert forall|j: int| 0 <= j < self.total() implies self.frame_used(j) == (if j == f {
                    true
                } else {
                    old(self).frame_used(j)
                }) by {
                    lemma_u8_set_bit(old(self).bitmap@[f / 8], (f % 8) as u8, (j % 8) as u8);
                }
                assert(self.bits() =~= old(self).bits().update(f, true));
            }
        } else {
            proof {
                assert(self.bits() =~= old(self).bits());
            }
        }
    }

    /// Marks frame `frame` free; out-of-range frames are ignored.
    /// Leaves the used-frame counter to the caller.
    fn clear_bit(&mut self, frame: usize)
        requires
            old(self).wf_shape(),
        ensures
            final(self).wf_shape(),
            final(self).total() == old(self).total(),
            final(self).used() == old(self).used(),
            final(self).cursor() == old(self).cursor(),
            frame < old(self).total() ==> final(self).bits() == old(self).bits().update(
                frame as int,
                false,
            ),
            frame >= old(self).total() ==> final(self).bits() == old(self).bits(),
    {
        if frame < self.total_frames {
            let byte = self.bitmap[frame / 8] & !(1u8 << (frame % 8));
            self.bitmap.set(frame / 8, byte);
            proof {
                let f = frame as int;
                assert forall|j: int| 0 <= j < self.total() implies self.frame_used(j) == (if j == f {
                    false
                } else {
                    old(self).frame_used(j)
                }) by {
                    lemma_u8_clear_bit(old(self).bitmap@[f / 8], (f % 8) as u8, (j % 8) as u8);
                }
                assert(self.bits() =~= old(self).bits().update(f, false));
            }
        } else {
            proof {
                assert(self.bits() =~= old(self).bits());
            }
        }
    }

    /// True iff `frame` is marked used; frames beyond the tracked range
    /// count as used.
    fn is_set(&self, frame: usize) -> (r: bool)
        requires
            self.wf_shape(),
        ensures
            r == if frame < self.total() {
                self.frame_used(frame as int)
            } else {
                true
            },
    {
        if frame >= self.total_frames {
            return true;
        }
        let b = self.bitmap[frame / 8];
        let i = (frame % 8) as u8;
        proof {
            assert((b & (1u8 << i) != 0) == bit_of(b, i)) by (bit_vector)
                requires
                    i < 8,
            ;
        }
        b & (1u8 << i) != 0
    }

    /// Returns `(used_frames, total_frames)`.
    pub fn stats(&self) -> (r: (usize, usize))
        ensures
            r.0 == self.used(),
            r.1 == self.total(),
    {
        (self.used_frames, self.total_frames)
    }

    /// Next-fit scan, `i` steps after the cursor: the first free frame from
    /// there on (wrapping around), or `None` when the scan is exhausted.
    pub closed spec fn find_free_from(self, i: int) -> Option<int>
        decreases self.total() - i,
        when 0 <= i <= self.total()
    {
        if i >= self.total() {
            None
        } else {
            let idx = (self.cursor() + i) % self.total();
            if !self.bits()[idx] {
                Some(idx)
            } else {
                self.find_free_from(i + 1)
            }
        }
    }

    /// The frame the next-fit scan returns from the current state.
    pub open spec fn spec_next_free(self) -> Option<int> {
        self.find_free_from(0)
    }

    proof fn lemma_find_free_skip(self, i: int)
        requires
            self.wf(),
            0 <= i <= self.total(),
            forall|j: int|
                0 <= j < i ==> #[trigger] self.bits()[(self.cursor() + j) % self.total()],
        ensures
            self.find_free_from(0) == self.find_free_from(i),
        decreases i,
    {
        if i > 0 {
            self.lemma_find_free_skip(i - 1);
        }
    }

    proof fn lemma_find_free_props(self, i: int)
        requires
            self.wf(),
            0 <= i <= self.total(),
        ensures
            match self.find_free_from(i) {
                Some(idx) => 0 <= idx < self.total() && !self.bits()[idx],
                None => forall|j: int|
                    i <= j < self.total() ==> #[trigger] self.bits()[(self.cursor() + j)
                        % self.total()],
            },
        decreases self.total() - i,
    {
        if i < self.total() {
            self.lemma_find_free_props(i + 1);
        }
    }

    /// A failed scan means every frame is used: the scan walks all residues
    /// modulo the frame count.
    proof fn lemma_find_free_none_full(self)
        requires
            self.wf(),
            self.spec_next_free() is None,
        ensures
            forall|f: int| 0 <= f < self.total() ==> self.bits()[f],
    {
        self.lemma_find_free_props(0);
        let t = self.total();
        let c = self.cursor();
        assert forall|f: int| 0 <= f < t implies self.bits()[f] by {
            let j = (f - c) % t;
            vstd::arithmetic::div_mod::lemma_mod_division_less_than_divisor(f - c, t);
            vstd::arithmetic::div_mod::lemma_add_mod_noop_right(c, f - c, t);
            vstd::arithmetic::div_mod::lemma_small_mod(f as nat, t as nat);
            assert((c + j) % t == f);
            assert(self.bits()[(c + j) % t]);
        }
    }

    /// Allocates one free frame by next-fit scan, marking it used, or
    /// returns `None` when every frame is used.
    pub fn alloc_frame(&mut self) -> (r: Option<u64>)
        requires
            old(self).wf(),
        ensures
            final(self).wf(),
            final(self).total() == old(self).total(),
            match r {
                None => {
                    &&& *final(self) == *old(self)
                    &&& old(self).spec_next_free() is None
                    &&& forall|f: int| 0 <= f < old(self).total() ==> old(self).bits()[f]
                },
                Some(addr) => {
                    let idx = addr as int / FRAME_SIZE as int;
                    &&& old(self).spec_next_free() == Some(idx)
                    &&& addr == idx * (FRAME_SIZE as int)
                    &&& 0 <= idx < old(self).total()
                    &&& !old(self).bits()[idx]
                    &&& final(self).bits() == old(self).bits().update(idx, true)
                    &&& final(self).used() == old(self).used() + 1
                    &&& final(self).cursor() == idx + 1
                },
            },
    {
        let total = self.total_frames;
        for i in 0..total
            invariant
                self == old(self),
                total == self.total_frames,
                self.wf(),
                forall|j: int|
                    0 <= j < i ==> #[trigger] self.bits()[(self.cursor() + j) % self.total()],
        {
            let idx = ((self.search_start as u64 + i as u64) % (total as u64)) as usize;
            if !self.is_set(idx) {
                proof {
                    self.lemma_find_free_skip(i as int);
                    assert((self.cursor() + i) % self.total() == idx as int)
                        by (nonlinear_arith)
                        requires
                            self.total() == total > 0,
                            self.cursor() == self.search_start,
                            0 <= self.search_start,
                            0 <= i,
                            idx == (self.search_start + i) % (total as int),
                    ;
                    assert(self.spec_next_free() == Some(idx as int));
                    lemma_count_trues_update(self.bits(), idx as int, true);
                    lemma_count_trues_le_len(self.bits().update(idx as int, true));
                }
                self.set_bit(idx);
                self.used_frames = self.used_frames + 1;
                self.search_start = idx + 1;
                proof {
                    assert(self.bits() == old(self).bits().update(idx as int, true));
                    assert(count_trues(self.bits()) == count_trues(old(self).bits()) + 1);
                    assert(self.used_frames == count_trues(self.bits()));
                }
                return Some(idx as u64 * FRAME_SIZE);
            }
        }
        proof {
            self.lemma_find_free_skip(self.total());
            self.lemma_find_free_none_full();
        }
        None
    }

    /// Marks the frame containing `addr` free and rewinds the next-fit
    /// cursor to it. Freeing an address that is out of range or already
    /// free is ignored.
    pub fn free_frame(&mut self, addr: u64)
        requires
            old(self).wf(),
        ensures
            final(self).wf(),
            final(self).total() == old(self).total(),
            ({
                let f = addr as int / FRAME_SIZE as int;
                if 0 <= f < old(self).total() && old(self).bits()[f] {
                    &&& final(self).bits() == old(self).bits().update(f, false)
                    &&& final(self).used() == old(self).used() - 1
                    &&& final(self).cursor() == if f < old(self).cursor() {
                        f
                    } else {
                        old(self).cursor()
                    }
                } else {
                    *final(self) == *old(self)
                }
            }),
    {
        let frame64 = addr / FRAME_SIZE;
        if frame64 >= self.total_frames as u64 {
            return ;
        }
        let frame = frame64 as usize;
        if self.is_set(frame) {
            proof {
                lemma_count_trues_pos(self.bits(), frame as int);
                lemma_count_trues_update(self.bits(), frame as int, false);
            }
            self.clear_bit(frame);
            self.used_frames = self.used_frames - 1;
            if frame < self.search_start {
                self.search_start = frame;
            }
            proof {
                assert(self.wf_shape());
                assert(self.bits() == old(self).bits().update(frame as int, false));
                assert(count_trues(self.bits()) == count_trues(old(self).bits()) - 1);
                assert(self.used_frames == count_trues(self.bits()));
            }
        }
    }
}

impl BitmapAllocator {
    /// True iff some frame of the window `[s, s + len)` is marked used.
    pub open spec fn has_used_in(self, s: int, len: int) -> bool {
        exists|k: int| s <= k < s + len && #[trigger] self.bits()[k]
    }

    /// Allocates `count` physically contiguous free frames by a first-fit
    /// run-length scan, marking them used, or returns `None` when no such
    /// run exists (or `count` is zero).
    pub fn alloc_contiguous(&mut self, count: usize) -> (r: Option<u64>)
        requires
            old(self).wf(),
        ensures
            final(self).wf(),
            final(self).total() == old(self).total(),
            match r {
                None => {
                    &&& *final(self) == *old(self)
                    &&& count > 0 ==> forall|s: int|
                        0 <= s && s + count <= old(self).total()
                            ==> #[trigger] old(self).has_used_in(s, count as int)
                },
                Some(addr) => {
                    let b = addr as int / FRAME_SIZE as int;
                    &&& addr == b * (FRAME_SIZE as int)
                    &&& count >= 1
                    &&& 0 <= b && b + count <= old(self).total()
                    &&& forall|k: int| b <= k < b + count ==> !(#[trigger] old(self).bits()[k])
                    &&& forall|k: int| b <= k < b + count ==> #[trigger] final(self).bits()[k]
                    &&& forall|k: int|
                        0 <= k < old(self).total() && !(b <= k < b + count)
                            ==> #[trigger] final(self).bits()[k] == old(self).bits()[k]
                    &&& forall|s: int|
                        0 <= s < b ==> #[trigger] old(self).has_used_in(s, count as int)
                    &&& final(self).used() == old(self).used() + count
                    &&& final(self).cursor() == b + count
                },
            },
    {
        if count == 0 {
            return None;
        }
        let total = self.total_frames;
        let mut run_start: usize = 0;
        let mut run_len: usize = 0;

        for i in 0..total
            invariant
                self == old(self),
                total == self.total_frames,
                self.wf(),
                0 < count,
                run_len < count,
                run_len <= i,
                run_len > 0 ==> run_start + run_len == i,
                forall|k: int| i - run_len <= k < i ==> !(#[trigger] self.bits()[k]),
                run_len == i || self.bits()[i - run_len - 1],
                forall|s: int|
                    0 <= s && s + count <= i ==> #[trigger] self.has_used_in(s, count as int),
        {
            if !self.is_set(i) {
                if run_len == 0 {
                    run_start = i;
                }
                run_len = run_len + 1;
                if run_len == count {
                    proof {
                        assert(run_start + count == i + 1);
                        assert(forall|k: int|
                            run_start <= k < run_start + count ==> !(#[trigger] self.bits()[k]));
                    }
                    let ghost pre = *self;
                    for j in run_start..run_start + count
                        invariant
                            run_start + count <= total,
                            total == self.total_frames,
                            self.wf_shape(),
                            self.total() == pre.total(),
                            self.used() == pre.used(),
                            self.cursor() == pre.cursor(),
                            pre.wf(),
                            forall|k: int|
                                run_start <= k < run_start + count ==> !(#[trigger] pre.bits()[k]),
                            forall|k: int| run_start <= k < j ==> #[trigger] self.bits()[k],
                            forall|k: int|
                                0 <= k < pre.total() && !(run_start <= k < j)
                                    ==> #[trigger] self.bits()[k] == pre.bits()[k],
                            count_trues(self.bits()) == count_trues(pre.bits()) + (j - run_start),
                    {
                        proof {
                            lemma_count_trues_update(self.bits(), j as int, true);
                        }
                        self.set_bit(j);
                    }
                    proof {
                        lemma_count_trues_le_len(self.bits());
                    }
                    let ghost mid = *self;
                    self.used_frames = self.used_frames + count;
                    self.search_start = run_start + count;
                    proof {
                        assert(self.bits() =~= mid.bits());
                        assert(count_trues(self.bits()) == count_trues(pre.bits()) + count);
                        assert(self.used_frames == count_trues(self.bits()));
                        let b = run_start as int;
                        assert(b * (FRAME_SIZE as int) / (FRAME_SIZE as int) == b)
                            by (nonlinear_arith)
                            requires
                                b >= 0,
                        ;
                    }
                    return Some(run_start as u64 * FRAME_SIZE);
                }
                proof {
                    assert forall|s: int| 0 <= s && s + count <= i + 1 implies #[trigger] self
                        .has_used_in(s, count as int) by {
                        if s + count == i + 1 {
                            let k = i - run_len;
                            assert(s <= k < s + count);
                            assert(self.bits()[k]);
                        }
                    }
                }
            } else {
                run_len = 0;
                proof {
                    assert forall|s: int| 0 <= s && s + count <= i + 1 implies #[trigger] self
                        .has_used_in(s, count as int) by {
                        if s + count == i + 1 {
                            assert(s <= i < s + count);
                            assert(self.bits()[i as int]);
                        }
                    }
                }
            }
        }
        proof {
            assert forall|s: int| 0 <= s && s + count <= self.total() implies #[trigger] self
                .has_used_in(s, count as int) by {}
        }
        None
    }
}

proof fn lemma_count_trues_all(s: Seq<bool>)
    requires
        forall|k: int| 0 <= k < s.len() ==> s[k],
    ensures
        count_trues(s) == s.len(),
    decreases s.len(),
{
    if s.len() > 0 {
        lemma_count_trues_all(s.drop_last());
    }
}

/// Largest region end address of the boot memory map.
pub open spec fn max_region_end(regions: Seq<MemRegion>) -> int
    decreases regions.len(),
{
    if regions.len() == 0 {
        0
    } else {
        let rest = max_region_end(regions.drop_last());
        if regions.last().end > rest {
            regions.last().end as int
        } else {
            rest
        }
    }
}

proof fn lemma_max_region_end_bound(regions: Seq<MemRegion>, k: int)
    requires
        0 <= k < regions.len(),
    ensures
        regions[k].end <= max_region_end(regions),
    decreases regions.len(),
{
    if k < regions.len() - 1 {
        lemma_max_region_end_bound(regions.drop_last(), k);
    }
}

proof fn lemma_max_region_end_nonneg(regions: Seq<MemRegion>)
    ensures
        max_region_end(regions) >= 0,
    decreases regions.len(),
{
    if regions.len() > 0 {
        lemma_max_region_end_nonneg(regions.drop_last());
    }
}

/// True iff frame `f` lies in a usable region of the map, counting whole
/// frames the way the initialization scan does.
pub open spec fn usable_frame(regions: Seq<MemRegion>, f: int) -> bool {
    exists|k: int|
        0 <= k < regions.len() && (#[trigger] regions[k]).usable && regions[k].start as int / 4096
            <= f < regions[k].end as int / 4096
}

proof fn lemma_usable_frame_push(regions: Seq<MemRegion>, i: int, f: int)
    requires
        0 <= i < regions.len(),
    ensures
        usable_frame(regions.subrange(0, i + 1), f) == (usable_frame(regions.subrange(0, i), f) || (
        regions[i].usable
            && regions[i].start as int / 4096 <= f < regions[i].end as int / 4096)),
{
    let pre = regions.subrange(0, i);
    let cur = regions.subrange(0, i + 1);
    if usable_frame(cur, f) {
        let k = choose|k: int|
            0 <= k < cur.len() && (#[trigger] cur[k]).usable && cur[k].start as int / 4096 <= f
                < cur[k].end as int / 4096;
        if k < i {
            assert(pre[k] == cur[k]);
            assert(usable_frame(pre, f));
        } else {
            assert(cur[k] == regions[i]);
        }
    }
    if usable_frame(pre, f) {
        let k = choose|k: int|
            0 <= k < pre.len() && (#[trigger] pre[k]).usable && pre[k].start as int / 4096 <= f
                < pre[k].end as int / 4096;
        assert(cur[k] == pre[k]);
        assert(usable_frame(cur, f));
    }
    if regions[i].usable && regions[i].start as int / 4096 <= f < regions[i].end as int / 4096 {
        assert(cur[i] == regions[i]);
        assert(usable_frame(cur, f));
    }
}

/// `x` rounded up to the next multiple of the frame size.
pub open spec fn spec_align_up(x: int) -> int {
    ((x + 4095) / 4096) * 4096
}

proof fn lemma_align_up_props(x: int)
    requires
        x >= 0,
    ensures
        spec_align_up(x) >= x,
        spec_align_up(x) < x + 4096,
        spec_align_up(x) % 4096 == 0,
{
    vstd::arithmetic::div_mod::lemma_fundamental_div_mod(x + 4095, 4096);
    vstd::arithmetic::div_mod::lemma_mod_division_less_than_divisor(x + 4095, 4096);
    vstd::arithmetic::div_mod::lemma_mod_multiples_basic((x + 4095) / 4096, 4096);
}

/// True iff `r` is usable and holds `bytes` contiguous bytes starting at a
/// frame-aligned address.
pub open spec fn region_fits(r: MemRegion, bytes: int) -> bool {
    &&& r.usable
    &&& r.end - r.start >= bytes
    &&& spec_align_up(r.start as int) + bytes <= r.end
}

/// First-fit scan of the memory map for `bytes` aligned bytes, from region
/// index `i` on: the aligned start of the first region that fits.
pub open spec fn spec_find_region(regions: Seq<MemRegion>, i: int, bytes: int) -> Option<int>
    decreases regions.len() - i,
    when 0 <= i <= regions.len()
{
    if i >= regions.len() {
        None
    } else if region_fits(regions[i], bytes) {
        Some(spec_align_up(regions[i].start as int))
    } else {
        spec_find_region(regions, i + 1, bytes)
    }
}

proof fn lemma_spec_find_region_props(regions: Seq<MemRegion>, i: int, bytes: int)
    requires
        0 <= i <= regions.len(),
        bytes >= 0,
        spec_find_region(regions, i, bytes) is Some,
    ensures
        ({
            let base = spec_find_region(regions, i, bytes)->Some_0;
            &&& base >= 0
            &&& base % 4096 == 0
            &&& base + bytes <= max_region_end(regions)
        }),
    decreases regions.len() - i,
{
    if region_fits(regions[i], bytes) {
        lemma_align_up_props(regions[i].start as int);
        lemma_max_region_end_bound(regions, i);
    } else {
        lemma_spec_find_region_props(regions, i + 1, bytes);
    }
}

/// Scans the memory map for the first usable region that can hold
/// `frames_needed` whole frames at a frame-aligned address.
fn find_free_region(regions: &Vec<MemRegion>, frames_needed: u64) -> (r: Option<u64>)
    requires
        frames_needed * 4096 <= u64::MAX,
    ensures
        match r {
            Some(a) => spec_find_region(regions@, 0, frames_needed as int * 4096) == Some(
                a as int,
            ),
            None => spec_find_region(regions@, 0, frames_needed as int * 4096) is None,
        },
{
    let bytes_needed = frames_needed * FRAME_SIZE;
    let ghost b = bytes_needed as int;
    let n = regions.len();
    for i in 0..n
        invariant
            n == regions.len(),
            b == frames_needed * 4096,
            bytes_needed == b,
            spec_find_region(regions@, 0, b) == spec_find_region(regions@, i as int, b),
    {
        let r = regions[i];
        let mut fits = false;
        let mut aligned: u64 = 0;
        if r.usable && r.end >= r.start && r.end - r.start >= bytes_needed && r.start
            <= u64::MAX - 4095 {
            aligned = ((r.start + 4095) / 4096) * 4096;
            if bytes_needed <= r.end && aligned <= r.end - bytes_needed {
                fits = true;
            }
        }
        if fits {
            proof {
                assert(region_fits(regions@[i as int], b));
            }
            return Some(aligned);
        }
        proof {
            let reg = regions@[i as int];
            if reg.usable && reg.start as int > u64::MAX - 4095 {
                assert(u64::MAX - 4095 + 4095 < reg.start as int + 4095);
                vstd::arithmetic::div_mod::lemma_div_is_ordered(
                    0x1_0000_0000_0000_0000,
                    reg.start as int + 4095,
                    4096,
                );
                assert(0x1_0000_0000_0000_0000int / 4096 == 0x10_0000_0000_0000int);
                vstd::arithmetic::mul::lemma_mul_inequality(
                    0x10_0000_0000_0000,
                    (reg.start as int + 4095) / 4096,
                    4096,
                );
                assert(spec_align_up(reg.start as int) >= 0x1_0000_0000_0000_0000int);
            }
            if reg.usable && reg.start <= u64::MAX - 4095 {
                lemma_align_up_props(reg.start as int);
            }
            assert(!region_fits(regions@[i as int], b));
        }
    }
    None
}

/// The conditions under which the boot bitmap can be built at all: the
/// frame total fits the machine, and some usable region can hold the
/// bitmap's own backing frames.
pub open spec fn bitmap_init_ok(regions: Seq<MemRegion>) -> bool {
    let total = max_region_end(regions) / 4096;
    let bytes = (total + 7) / 8;
    let bframes = (bytes + 4095) / 4096;
    &&& total <= usize::MAX as int / 8
    &&& total <= 0x100_0000_0000
    &&& spec_find_region(regions, 0, bframes * 4096) is Some
}

/// Whether frame `f` is marked used right after initialization: it lies
/// outside every usable region, or it backs the bitmap itself.
pub open spec fn init_frame_used(regions: Seq<MemRegion>, f: int) -> bool {
    let total = max_region_end(regions) / 4096;
    let bytes = (total + 7) / 8;
    let bframes = (bytes + 4095) / 4096;
    let bstart = spec_find_region(regions, 0, bframes * 4096)->Some_0 / 4096;
    !usable_frame(regions, f) || bstart <= f < bstart + bframes
}

impl BitmapAllocator {
    /// Builds the allocator from the boot memory map. Every frame starts
    /// used; frames of usable regions are then freed; finally the frames
    /// backing the bitmap itself are re-marked used, in this order, so the
    /// bitmap can never be allocated over itself. Returns `None` when no
    /// usable region can hold the bitmap, or the bitmap would not be
    /// addressable.
    pub fn init(regions: &Vec<MemRegion>) -> (r: Option<BitmapAllocator>)
        ensures
            match r {
                None => !bitmap_init_ok(regions@),
                Some(a) => {
                    &&& bitmap_init_ok(regions@)
                    &&& a.wf()
                    &&& a.total() == max_region_end(regions@) / 4096
                    &&& a.cursor() == 0
                    &&& forall|f: int|
                        0 <= f < a.total() ==> #[trigger] a.bits()[f] == init_frame_used(
                            regions@,
                            f,
                        )
                },
            },
    {
        let n = regions.len();
        let mut max_addr: u64 = 0;
        for i in 0..n
            invariant
                n == regions.len(),
                max_addr == max_region_end(regions@.subrange(0, i as int)),
        {
            proof {
                assert(regions@.subrange(0, i as int + 1).drop_last() =~= regions@.subrange(
                    0,
                    i as int,
                ));
            }
            if regions[i].end > max_addr {
                max_addr = regions[i].end;
            }
        }
        proof {
            assert(regions@.subrange(0, n as int) =~= regions@);
        }
        let ghost total_spec = max_region_end(regions@) / 4096;

        let total64 = max_addr / FRAME_SIZE;
        if total64 > (usize::MAX as u64) / 8 || total64 > 0x100_0000_0000 {
            return None;
        }
        let total = total64 as usize;
        let bitmap_bytes = (total + 7) / 8;
        let bitmap_frames = ((bitmap_bytes as u64) + FRAME_SIZE - 1) / FRAME_SIZE;
        proof {
            vstd::arithmetic::div_mod::lemma_fundamental_div_mod(bitmap_bytes as int + 4095, 4096);
            vstd::arithmetic::div_mod::lemma_mod_division_less_than_divisor(
                bitmap_bytes as int + 4095,
                4096,
            );
        }
        let bitmap_phys = match find_free_region(regions, bitmap_frames) {
            Some(p) => p,
            None => {
                return None;
            },
        };
        let ghost bframes = bitmap_frames as int;
        let ghost bstart = bitmap_phys as int / 4096;
        proof {
            lemma_spec_find_region_props(regions@, 0, bframes * 4096);
            lemma_max_region_end_nonneg(regions@);
            // the backing frames lie inside the tracked range
            assert(bitmap_phys + bframes * 4096 <= max_addr);
            assert(bitmap_phys == 4096 * bstart) by {
                vstd::arithmetic::div_mod::lemma_fundamental_div_mod(bitmap_phys as int, 4096);
            }
            assert(4096 * (bstart + bframes) <= max_addr);
            assert(bstart + bframes <= total_spec) by {
                vstd::arithmetic::div_mod::lemma_div_is_ordered(
                    4096 * (bstart + bframes),
                    max_addr as int,
                    4096,
                );
                vstd::arithmetic::div_mod::lemma_div_multiples_vanish(bstart + bframes, 4096);
            }
        }

        let mut bitmap: Vec<u8> = Vec::new();
        while bitmap.len() < bitmap_bytes
            invariant
                bitmap@.len() <= bitmap_bytes,
                forall|k: int| 0 <= k < bitmap@.len() ==> bitmap@[k] == 0xFFu8,
            decreases bitmap_bytes - bitmap.len(),
        {
            bitmap.push(0xFF);
        }

        let mut alloc = BitmapAllocator {
            bitmap,
            total_frames: total,
            used_frames: total,
            search_start: 0,
        };
        proof {
            assert forall|f: int| 0 <= f < alloc.total() implies alloc.bits()[f] by {
                let bi = (f % 8) as u8;
                assert(bit_of(0xFFu8, bi)) by (bit_vector)
                    requires
                        bi < 8,
                ;
            }
            lemma_count_trues_all(alloc.bits());
        }

        for ri in 0..n
            invariant
                n == regions.len(),
                alloc.wf(),
                alloc.total() == total as int,
                alloc.cursor() == 0,
                total == total64,
                total64 == max_addr / 4096,
                max_addr == max_region_end(regions@),
                forall|f: int|
                    0 <= f < alloc.total() ==> #[trigger] alloc.bits()[f] == !usable_frame(
                        regions@.subrange(0, ri as int),
                        f,
                    ),
        {
            let r = regions[ri];
            if r.usable {
                proof {
                    lemma_max_region_end_bound(regions@, ri as int);
                }
                let start_frame64 = r.start / FRAME_SIZE;
                let end_frame64 = r.end / FRAME_SIZE;
                proof {
                    vstd::arithmetic::div_mod::lemma_div_is_ordered(
                        r.end as int,
                        max_addr as int,
                        4096,
                    );
                }
                let mut fcur = start_frame64;
                while fcur < end_frame64
                    invariant
                        start_frame64 <= fcur,
                        fcur <= end_frame64 || fcur == start_frame64,
                        end_frame64 <= total64,
                        total == total64,
                        n == regions.len(),
                        alloc.wf(),
                        alloc.total() == total as int,
                        alloc.cursor() == 0,
                        r == regions@[ri as int],
                        r.usable,
                        start_frame64 == r.start / 4096,
                        end_frame64 == r.end / 4096,
                        forall|f: int|
                            0 <= f < alloc.total() ==> #[trigger] alloc.bits()[f] == (
                            !usable_frame(regions@.subrange(0, ri as int), f) && !(start_frame64
                                <= f < fcur)),
                    decreases end_frame64 - fcur,
                {
                    let fi = fcur as usize;
                    if alloc.is_set(fi) {
                        proof {
                            lemma_count_trues_pos(alloc.bits(), fi as int);
                            lemma_count_trues_update(alloc.bits(), fi as int, false);
                        }
                        let ghost prev = alloc;
                        alloc.clear_bit(fi);
                        alloc.used_frames = alloc.used_frames - 1;
                        proof {
                            assert(alloc.bits() =~= prev.bits().update(fi as int, false));
                            assert(count_trues(alloc.bits()) == count_trues(prev.bits()) - 1);
                            assert(alloc.used_frames == count_trues(alloc.bits()));
                        }
                    }
                    fcur = fcur + 1;
                }
                proof {
                    assert forall|f: int|
                        0 <= f < alloc.total() implies #[trigger] alloc.bits()[f] == !usable_frame(
                        regions@.subrange(0, ri as int + 1),
                        f,
                    ) by {
                        lemma_usable_frame_push(regions@, ri as int, f);
                    }
                }
            } else {
                proof {
                    assert forall|f: int|
                        0 <= f < alloc.total() implies #[trigger] alloc.bits()[f] == !usable_frame(
                        regions@.subrange(0, ri as int + 1),
                        f,
                    ) by {
                        lemma_usable_frame_push(regions@, ri as int, f);
                    }
                }
            }
        }
        proof {
            assert(regions@.subrange(0, n as int) =~= regions@);
        }

        let bitmap_start64 = bitmap_phys / FRAME_SIZE;
        let mut k64: u64 = 0;
        while k64 < bitmap_frames
            invariant
                k64 <= bitmap_frames,
                bstart == bitmap_start64,
                bstart + bframes <= total as int,
                bframes == bitmap_frames,
                total == total64,
                alloc.wf(),
                alloc.total() == total as int,
                alloc.cursor() == 0,
                forall|f: int|
                    0 <= f < alloc.total() ==> #[trigger] alloc.bits()[f] == (!usable_frame(
                        regions@,
                        f,
                    ) || bstart <= f < bstart + k64),
            decreases bitmap_frames - k64,
        {
            let fi = (bitmap_start64 + k64) as usize;
            if !alloc.is_set(fi) {
                proof {
                    lemma_count_trues_update(alloc.bits(), fi as int, true);
                    lemma_count_trues_le_len(alloc.bits().update(fi as int, true));
                }
                let ghost prev = alloc;
                alloc.set_bit(fi);
                alloc.used_frames = alloc.used_frames + 1;
                proof {
                    assert(alloc.bits() =~= prev.bits().update(fi as int, true));
                    assert(count_trues(alloc.bits()) == count_trues(prev.bits()) + 1);
                    assert(alloc.used_frames == count_trues(alloc.bits()));
                }
            }
            k64 = k64 + 1;
        }
        Some(alloc)
    }
}

/// Number of `false` entries of `s`.
pub closed spec fn count_falses(s: Seq<bool>) -> nat
    decreases s.len(),
{
    if s.len() == 0 {
        0
    } else {
        count_falses(s.drop_last()) + (if s.last() { 0nat } else { 1nat })
    }
}

proof fn lemma_count_split(s: Seq<bool>)
    ensures
        count_trues(s) + count_falses(s) == s.len(),
    decreases s.len(),
{
    if s.len() > 0 {
        lemma_count_split(s.drop_last());
    }
}

/// Bounds every well-formed allocator obeys: the frame total fits the
/// 52-bit physical address space and the counter never exceeds it.
pub proof fn lemma_wf_bounds(a: BitmapAllocator)
    requires
        a.wf(),
    ensures
        a.total() <= 0x100_0000_0000,
        0 <= a.used() <= a.total(),
        a.bits().len() == a.total(),
{
    lemma_count_trues_le_len(a.bits());
}

/// Law: the used-frame counter and the number of free frames always sum to
/// the frame total, in every well-formed allocator state — so in particular
/// after every allocator operation, each of which preserves `wf`.
pub proof fn lemma_used_plus_free_is_total(a: BitmapAllocator)
    requires
        a.wf(),
    ensures
        a.used() + count_falses(a.bits()) == a.total(),
{
    lemma_count_split(a.bits());
}

/// Law: the next-fit scan never hands out a frame that is marked used, so
/// a frame returned by `alloc_frame` — which `alloc_frame` marks used —
/// cannot be returned again until something clears its bit, and only
/// `free_frame` does that.
pub proof fn lemma_alloc_never_returns_used(a: BitmapAllocator, f: int)
    requires
        a.wf(),
        0 <= f < a.total(),
        a.bits()[f],
    ensures
        a.spec_next_free() != Some(f),
{
    a.lemma_find_free_props(0);
}

} // verus!
