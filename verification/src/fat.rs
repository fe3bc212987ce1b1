//! On-disk directory entry of the FAT32 filesystem collaborator.
//!
//! The driver that walks the disk lives outside this library; the entry
//! layout and its field decoding are plain data logic and are verified
//! here.

use vstd::prelude::*;

verus! {

/// Relies on alloc's String::push: appends exactly the given character.
pub assume_specification[ String::push ](s: &mut String, ch: char)
    ensures
        final(s)@ == old(s)@.push(ch),
;

/// One 32-byte directory record.
#[derive(Debug, Clone, Copy)]
pub struct DirectoryEntry {
    /// Space-padded base name.
    pub name: [u8; 8],
    /// Space-padded extension.
    pub ext: [u8; 3],
    /// Attribute bits; 0x0F marks a long-name record.
    pub attributes: u8,
    /// Reserved byte.
    pub reserved: u8,
    /// Creation time, tenths of a second.
    pub ctime_tenth: u8,
    /// Creation time.
    pub ctime: u16,
    /// Creation date.
    pub cdate: u16,
    /// Access date.
    pub adate: u16,
    /// High half of the first cluster number.
    pub cluster_high: u16,
    /// Modification time.
    pub time: u16,
    /// Modification date.
    pub date: u16,
    /// Low half of the first cluster number.
    pub cluster_low: u16,
    /// File size in bytes.
    pub size: u32,
}

/// The characters of a name field with every space byte dropped,
/// interior ones included, in order — exactly how the entry decoder
/// scans it.
pub open spec fn visible_chars(s: Seq<u8>) -> Seq<char>
    decreases s.len(),
{
    if s.len() == 0 {
        Seq::empty()
    } else if s.last() == 0x20u8 {
        visible_chars(s.drop_last())
    } else {
        visible_chars(s.drop_last()).push(s.last() as char)
    }
}

impl DirectoryEntry {
    /// True iff this record is a deleted (reusable) slot.
    pub fn is_free(&self) -> (r: bool)
        ensures
            r == (self.name@[0] == 0xE5u8),
    {
        self.name[0] == 0xE5
    }

    /// True iff this record ends the directory.
    pub fn is_end(&self) -> (r: bool)
        ensures
            r == (self.name@[0] == 0x00u8),
    {
        self.name[0] == 0x00
    }

    /// True iff this record is part of a long file name.
    pub fn is_long_name(&self) -> (r: bool)
        ensures
            r == (self.attributes == 0x0Fu8),
    {
        self.attributes == 0x0F
    }

    /// First data cluster of the file: the two halves joined.
    pub fn get_cluster(&self) -> (r: u32)
        ensures
            r == self.cluster_high * 0x1_0000 + self.cluster_low,
    {
        proof {
            let h = self.cluster_high;
            let l = self.cluster_low;
            assert(((h as u32) << 16) | (l as u32) == h * 0x1_0000 + l) by (bit_vector);
        }
        ((self.cluster_high as u32) << 16) | (self.cluster_low as u32)
    }

    /// The display name: base name without padding, then, when the
    /// extension is non-empty, a dot and the extension without padding.
    pub fn get_filename(&self) -> (r: String)
        ensures
            r@ == visible_chars(self.name@) + (if visible_chars(self.ext@).len() == 0 {
                Seq::<char>::empty()
            } else {
                seq!['.'].add(visible_chars(self.ext@))
            }),
    {
        let mut name = String::new();
        let mut i: usize = 0;
        while i < 8
            invariant
                i <= 8,
                name@ == visible_chars(self.name@.subrange(0, i as int)),
            decreases 8 - i,
        {
            let c = self.name[i];
            if c != 0x20 {
                name.push(c as char);
            }
            proof {
                assert(self.name@.subrange(0, i as int + 1).drop_last() =~= self.name@.subrange(
                    0,
                    i as int,
                ));
            }
            i = i + 1;
        }
        proof {
            assert(self.name@.subrange(0, 8) =~= self.name@);
        }
        let mut ext = String::new();
        let mut j: usize = 0;
        while j < 3
            invariant
                j <= 3,
                ext@ == visible_chars(self.ext@.subrange(0, j as int)),
            decreases 3 - j,
        {
            let c = self.ext[j];
            if c != 0x20 {
                ext.push(c as char);
            }
            proof {
                assert(self.ext@.subrange(0, j as int + 1).drop_last() =~= self.ext@.subrange(
                    0,
                    j as int,
                ));
            }
            j = j + 1;
        }
        proof {
            assert(self.ext@.subrange(0, 3) =~= self.ext@);
        }
        if ext.as_str().unicode_len() != 0 {
            name.push('.');
            name.append(ext.as_str());
        }
        proof {
            if visible_chars(self.ext@).len() == 0 {
                assert(name@ =~= visible_chars(self.name@));
            } else {
                assert(name@ =~= visible_chars(self.name@) + seq!['.'].add(
                    visible_chars(self.ext@),
                ));
            }
        }
        name
    }
}

} // verus!
