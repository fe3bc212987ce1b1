//! Modelled contents of physical memory, one 4 KiB frame at a time.
//!
//! The kernel reaches all of physical memory through the direct-map
//! window; this store plays the part of that memory for the verified
//! logic. A frame that was never written reads as zero.

use vstd::prelude::*;
use crate::paging::{page_base, page_offset, lemma_index_bounds};

verus! {

/// Byte contents of physical frames, keyed by frame base address.
pub struct RamStore {
    frames: Vec<u64>,
    contents: Vec<Vec<u8>>,
}

/// The byte physical address `p` holds under the frame map `m`.
pub open spec fn phys_byte(m: Map<u64, Seq<u8>>, p: u64) -> u8 {
    if m.contains_key(page_base(p)) {
        m[page_base(p)][page_offset(p) as int]
    } else {
        0
    }
}

impl RamStore {
    /// The store as a map from frame base address to the frame's bytes.
    pub closed spec fn view(self) -> Map<u64, Seq<u8>> {
        Map::new(
            |f: u64| exists|i: int| 0 <= i < self.frames@.len() && self.frames@[i] == f,
            |f: u64|
                {
                    let i = choose|i: int| 0 <= i < self.frames@.len() && self.frames@[i] == f;
                    self.contents@[i]@
                },
        )
    }

    /// Structural invariant: one 4096-byte record per distinct aligned
    /// frame.
    pub closed spec fn wf(self) -> bool {
        &&& self.frames@.len() == self.contents@.len()
        &&& forall|i: int, j: int|
            0 <= i < j < self.frames@.len() ==> (#[trigger] self.frames@[i]) != (#[trigger] self.frames@[j])
        &&& forall|i: int|
            0 <= i < self.contents@.len() ==> (#[trigger] self.contents@[i])@.len() == 4096
        &&& forall|i: int| 0 <= i < self.frames@.len() ==> (#[trigger] self.frames@[i]) % 4096 == 0
    }

    /// An empty store: every byte of physical memory reads as zero.
    pub fn new() -> (r: RamStore)
        ensures
            r.wf(),
            forall|p: u64| phys_byte(r@, p) == 0u8,
    {
        let r = RamStore { frames: Vec::new(), contents: Vec::new() };
        proof {
            assert(forall|f: u64| !r@.contains_key(f));
        }
        r
    }

    proof fn lemma_frame_in_view(self, i: int)
        requires
            self.wf(),
            0 <= i < self.frames@.len(),
        ensures
            self@.contains_key(self.frames@[i]),
            self@[self.frames@[i]] == self.contents@[i]@,
    {
        let f = self.frames@[i];
        assert(self@.contains_key(f));
        let j = choose|j: int| 0 <= j < self.frames@.len() && self.frames@[j] == f;
        if i < j {
            assert(self.frames@[i] != self.frames@[j]);
        }
        if j < i {
            assert(self.frames@[j] != self.frames@[i]);
        }
    }

    fn find_frame(&self, base: u64) -> (r: Option<usize>)
        requires
            self.wf(),
        ensures
            match r {
                Some(i) => i < self.frames@.len() && self.frames@[i as int] == base
                    && self@.contains_key(base),
                None => !self@.contains_key(base),
            },
    {
        let n = self.frames.len();
        for i in 0..n
            invariant
                n == self.frames@.len(),
                self.wf(),
                forall|j: int| 0 <= j < i ==> (#[trigger] self.frames@[j]) != base,
        {
            if self.frames[i] == base {
                proof {
                    self.lemma_frame_in_view(i as int);
                }
                return Some(i);
            }
        }
        proof {
            if self@.contains_key(base) {
                let i = choose|i: int|
                    0 <= i < self.frames@.len() && self.frames@[i] == base;
                assert(self.frames@[i] != base);
            }
        }
        None
    }

    /// Reads the byte at physical address `p`.
    pub fn read_byte(&self, p: u64) -> (r: u8)
        requires
            self.wf(),
        ensures
            r == phys_byte(self@, p),
    {
        proof {
            lemma_index_bounds(p);
        }
        let base = p & !0xFFFu64;
        let off = (p & 0xFFF) as usize;
        match self.find_frame(base) {
            Some(i) => self.contents[i][off],
            None => 0,
        }
    }

    /// Writes the byte at physical address `p`, materializing the frame's
    /// record (zero-filled) on first touch.
    pub fn write_byte(&mut self, p: u64, b: u8)
        requires
            old(self).wf(),
        ensures
            final(self).wf(),
            phys_byte(final(self)@, p) == b,
            forall|q: u64| q != p ==> phys_byte(final(self)@, q) == phys_byte(old(self)@, q),
    {
        proof {
            lemma_index_bounds(p);
        }
        let base = p & !0xFFFu64;
        let off = (p & 0xFFF) as usize;
        let i = match self.find_frame(base) {
            Some(i) => i,
            None => {
                let mut zeros: Vec<u8> = Vec::new();
                while zeros.len() < 4096
                    invariant
                        zeros@.len() <= 4096,
                        forall|k: int| 0 <= k < zeros@.len() ==> zeros@[k] == 0u8,
                    decreases 4096 - zeros.len(),
                {
                    zeros.push(0);
                }
                let idx = self.frames.len();
                self.frames.push(base);
                self.contents.push(zeros);
                proof {
                    assert forall|q: u64| phys_byte(self@, q) == phys_byte(old(self)@, q) by {
                        lemma_index_bounds(q);
                        let qb = page_base(q);
                        if self@.contains_key(qb) {
                            let k = choose|k: int|
                                0 <= k < self.frames@.len() && self.frames@[k] == qb;
                            if k < idx {
                                assert(old(self).frames@[k] == qb);
                                old(self).lemma_frame_in_view(k);
                                self.lemma_frame_in_view(k);
                            } else {
                                assert(qb == base);
                                self.lemma_frame_in_view(idx as int);
                                assert(self@[qb][page_offset(q) as int] == 0u8);
                            }
                        }
                        if old(self)@.contains_key(qb) {
                            let k = choose|k: int|
                                0 <= k < old(self).frames@.len() && old(self).frames@[k] == qb;
                            assert(self.frames@[k] == qb);
                            old(self).lemma_frame_in_view(k);
                            self.lemma_frame_in_view(k);
                        }
                    }
                }
                idx
            },
        };
        let ghost mid = *self;
        proof {
            mid.lemma_frame_in_view(i as int);
        }
        let row = &mut self.contents[i];
        row[off] = b;
        proof {
            assert(self.frames@ == mid.frames@);
            assert(self.contents@[i as int]@ == mid.contents@[i as int]@.update(off as int, b));
            assert(forall|j: int|
                0 <= j < self.contents@.len() && j != i ==> self.contents@[j] == mid.contents@[
                    j
                ]);
            assert forall|q: u64| q != p implies phys_byte(self@, q) == phys_byte(mid@, q) by {
                lemma_index_bounds(q);
                lemma_index_bounds(p);
                let qb = page_base(q);
                if self@.contains_key(qb) {
                    let k = choose|k: int|
                        0 <= k < self.frames@.len() && self.frames@[k] == qb;
                    mid.lemma_frame_in_view(k);
                    self.lemma_frame_in_view(k);
                    if k == i {
                        assert(qb == base);
                        assert(page_offset(q) != page_offset(p)) by {
                            lemma_index_bounds(q);
                            lemma_index_bounds(p);
                        }
                    }
                }
                if !self@.contains_key(qb) {
                    assert(!mid@.contains_key(qb));
                }
            }
            self.lemma_frame_in_view(i as int);
            assert(phys_byte(self@, p) == b);
            assert forall|q: u64| q != p implies phys_byte(self@, q) == phys_byte(
                old(self)@,
                q,
            ) by {}
        }
    }
}

} // verus!
