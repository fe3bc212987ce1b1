//! Process loader: parses a 64-bit little-endian executable image,
//! materializes its loadable segments and a user stack through the memory
//! manager, and hands back the entry point and stack top for the
//! privilege transition.

use vstd::prelude::*;
use crate::paging::{
    translate_spec, present_leaf_flags, l1e, entry_addr, entry_user, entry_writable, page_base,
    page_offset, same_page, lemma_entry_addr_props,
    lemma_index_bounds, lemma_low_pages_distinct, lemma_page_base_monotonic,
    lemma_page_base_same_indices, lemma_same_page_same_walk, lemma_make_entry, ENTRY_ADDR_MASK,
    PAGE_PRESENT, PAGE_WRITABLE, PAGE_USER,
};
use crate::vmm::{MemoryManager, virt_byte};

verus! {

/// Top of the fixed user stack: a high canonical user-space address.
pub const USER_STACK_TOP: u64 = 0x0000_7FFF_FFFF_0000;

/// Number of pages of the fixed user stack.
pub const USER_STACK_PAGES: u64 = 16;

/// Why loading an executable failed.
#[derive(Clone, Copy, PartialEq, Eq, Structural, Debug)]
pub enum LoadError {
    /// The named file does not exist on the filesystem.
    FileNotFound,
    /// The image is too short or its header fails the sanity checks.
    BadHeader,
    /// A program header is malformed or of an unreadable type.
    BadSegment,
    /// No free frame for a segment page.
    OutOfMemory,
    /// Mapping or writing a segment page failed.
    MapFailed,
    /// No free frame for a stack page.
    NoStackFrames,
    /// Mapping a stack page failed.
    StackMapFailed,
}

/// One loadable range declared by a program header.
#[derive(Clone, Copy, PartialEq, Eq, Structural, Debug)]
pub struct Segment {
    /// Raw program-header type tag.
    pub seg_type: u32,
    /// Offset of the file-backed bytes inside the image.
    pub offset: u64,
    /// First virtual address of the range.
    pub vaddr: u64,
    /// Length of the file-backed prefix.
    pub filesz: u64,
    /// Declared length in memory; the suffix past `filesz` is zero-filled.
    pub memsz: u64,
}

/// A parsed executable image.
pub struct ElfImage {
    /// Declared entry point.
    pub entry: u64,
    /// All program headers, in file order.
    pub segments: Vec<Segment>,
}

/// What the privilege transition needs to start the program.
#[derive(Clone, Copy, PartialEq, Eq, Structural, Debug)]
pub struct LaunchPlan {
    /// Address user execution starts at.
    pub entry: u64,
    /// Initial user stack pointer.
    pub stack_top: u64,
}

/// Little-endian 16-bit value at `off`.
pub open spec fn le16(d: Seq<u8>, off: int) -> int {
    d[off] + 256 * (d[off + 1] as int)
}

/// Little-endian 32-bit value at `off`.
pub open spec fn le32(d: Seq<u8>, off: int) -> int {
    d[off] + 256 * (d[off + 1] + 256 * (d[off + 2] + 256 * (d[off + 3] as int)))
}

/// Little-endian 64-bit value at `off`.
pub open spec fn le64(d: Seq<u8>, off: int) -> int {
    d[off] + 256 * (d[off + 1] + 256 * (d[off + 2] + 256 * (d[off + 3] + 256 * (d[off + 4] + 256
        * (d[off + 5] + 256 * (d[off + 6] + 256 * (d[off + 7] as int)))))))
}

fn read_u16(data: &Vec<u8>, off: usize) -> (r: u16)
    requires
        off + 2 <= data.len(),
    ensures
        r as int == le16(data@, off as int),
{
    data[off] as u16 + 256 * (data[off + 1] as u16)
}

fn read_u32(data: &Vec<u8>, off: usize) -> (r: u32)
    requires
        off + 4 <= data.len(),
    ensures
        r as int == le32(data@, off as int),
{
    data[off] as u32 + 256 * (data[off + 1] as u32 + 256 * (data[off + 2] as u32 + 256 * (data[off
        + 3] as u32)))
}

fn read_u64(data: &Vec<u8>, off: usize) -> (r: u64)
    requires
        off + 8 <= data.len(),
    ensures
        r as int == le64(data@, off as int),
{
    data[off] as u64 + 256 * (data[off + 1] as u64 + 256 * (data[off + 2] as u64 + 256 * (data[off
        + 3] as u64 + 256 * (data[off + 4] as u64 + 256 * (data[off + 5] as u64 + 256 * (data[off
        + 6] as u64 + 256 * (data[off + 7] as u64)))))))
}

/// The header checks the loader performs: magic, 64-bit class,
/// little-endian data, the machine this kernel runs on, and a program
/// header table that lies inside the image.
pub open spec fn elf_header_ok(d: Seq<u8>) -> bool {
    &&& d.len() >= 64
    &&& d[0] == 0x7Fu8 && d[1] == 0x45u8 && d[2] == 0x4Cu8 && d[3] == 0x46u8
    &&& d[4] == 2u8
    &&& d[5] == 1u8
    &&& le16(d, 18) == 0x3E
    &&& le16(d, 54) == 56
    &&& le64(d, 32) <= d.len()
    &&& le16(d, 56) * 56 <= d.len() - le64(d, 32)
}

/// Declared entry point of the image.
pub open spec fn elf_entry(d: Seq<u8>) -> int {
    le64(d, 24)
}

/// Offset of the program header table.
pub open spec fn elf_phoff(d: Seq<u8>) -> int {
    le64(d, 32)
}

/// Number of program headers.
pub open spec fn elf_phnum(d: Seq<u8>) -> int {
    le16(d, 56)
}

/// A program-header type tag the loader can read.
pub open spec fn valid_seg_type(t: int) -> bool {
    0 <= t <= 7 || 0x6000_0000 <= t <= 0x7FFF_FFFF
}

/// Program-header field extractors, by header index.
pub open spec fn seg_type_of(d: Seq<u8>, i: int) -> int {
    le32(d, elf_phoff(d) + 56 * i)
}

pub open spec fn seg_offset_of(d: Seq<u8>, i: int) -> int {
    le64(d, elf_phoff(d) + 56 * i + 8)
}

pub open spec fn seg_vaddr_of(d: Seq<u8>, i: int) -> int {
    le64(d, elf_phoff(d) + 56 * i + 16)
}

pub open spec fn seg_filesz_of(d: Seq<u8>, i: int) -> int {
    le64(d, elf_phoff(d) + 56 * i + 32)
}

pub open spec fn seg_memsz_of(d: Seq<u8>, i: int) -> int {
    le64(d, elf_phoff(d) + 56 * i + 40)
}

/// The per-header checks: a readable type, and for a loadable header a
/// file range inside the image, a file size within the memory size, and a
/// memory range that does not wrap the address space.
pub open spec fn elf_segment_ok(d: Seq<u8>, i: int) -> bool {
    &&& valid_seg_type(seg_type_of(d, i))
    &&& (seg_type_of(d, i) == 1 ==> {
        &&& seg_offset_of(d, i) + seg_filesz_of(d, i) <= d.len()
        &&& seg_filesz_of(d, i) <= seg_memsz_of(d, i)
        &&& seg_vaddr_of(d, i) + seg_memsz_of(d, i) <= u64::MAX
    })
}

/// Every program header of the image passes its checks.
pub open spec fn elf_segments_ok(d: Seq<u8>) -> bool {
    forall|i: int| 0 <= i < elf_phnum(d) ==> #[trigger] elf_segment_ok(d, i)
}

/// Parses and sanity-checks an executable image: its header, then every
/// program header. Succeeds exactly on images that pass all checks.
pub fn parse_elf(data: &Vec<u8>) -> (r: Result<ElfImage, LoadError>)
    ensures
        match r {
            Ok(img) => {
                &&& elf_header_ok(data@)
                &&& elf_segments_ok(data@)
                &&& img.entry as int == elf_entry(data@)
                &&& img.segments@.len() == elf_phnum(data@)
                &&& forall|i: int|
                    0 <= i < img.segments@.len() ==> {
                        let s = #[trigger] img.segments@[i];
                        &&& s.seg_type as int == seg_type_of(data@, i)
                        &&& s.offset as int == seg_offset_of(data@, i)
                        &&& s.vaddr as int == seg_vaddr_of(data@, i)
                        &&& s.filesz as int == seg_filesz_of(data@, i)
                        &&& s.memsz as int == seg_memsz_of(data@, i)
                    }
            },
            Err(e) => {
                &&& (e == LoadError::BadHeader <==> !elf_header_ok(data@))
                &&& (e == LoadError::BadSegment <==> elf_header_ok(data@) && !elf_segments_ok(
                    data@,
                ))
                &&& (e == LoadError::BadHeader || e == LoadError::BadSegment)
            },
        },
{
    if data.len() < 64 {
        return Err(LoadError::BadHeader);
    }
    if !(data[0] == 0x7F && data[1] == 0x45 && data[2] == 0x4C && data[3] == 0x46) {
        return Err(LoadError::BadHeader);
    }
    if data[4] != 2 || data[5] != 1 {
        return Err(LoadError::BadHeader);
    }
    if read_u16(data, 18) != 0x3E {
        return Err(LoadError::BadHeader);
    }
    if read_u16(data, 54) != 56 {
        return Err(LoadError::BadHeader);
    }
    let phoff = read_u64(data, 32);
    let phnum = read_u16(data, 56);
    if phoff > data.len() as u64 {
        return Err(LoadError::BadHeader);
    }
    if (phnum as u64) * 56 > data.len() as u64 - phoff {
        return Err(LoadError::BadHeader);
    }
    let entry = read_u64(data, 24);
    let mut segments: Vec<Segment> = Vec::new();
    let n = phnum as usize;
    for i in 0..n
        invariant
            n == elf_phnum(data@),
            elf_header_ok(data@),
            phoff as int == elf_phoff(data@),
            phoff + (n as int) * 56 <= data.len(),
            segments@.len() == i,
            forall|j: int| 0 <= j < i ==> #[trigger] elf_segment_ok(data@, j),
            forall|j: int|
                0 <= j < i ==> {
                    let s = #[trigger] segments@[j];
                    &&& s.seg_type as int == seg_type_of(data@, j)
                    &&& s.offset as int == seg_offset_of(data@, j)
                    &&& s.vaddr as int == seg_vaddr_of(data@, j)
                    &&& s.filesz as int == seg_filesz_of(data@, j)
                    &&& s.memsz as int == seg_memsz_of(data@, j)
                },
    {
        proof {
            assert(phoff + 56 * (i as int) + 56 <= data@.len()) by (nonlinear_arith)
                requires
                    phoff + (n as int) * 56 <= data.len(),
                    0 <= i < n,
            ;
        }
        let base = phoff as usize + i * 56;
        let t = read_u32(data, base);
        let s_offset = read_u64(data, base + 8);
        let s_vaddr = read_u64(data, base + 16);
        let s_filesz = read_u64(data, base + 32);
        let s_memsz = read_u64(data, base + 40);
        let type_ok = t <= 7 || (0x6000_0000 <= t && t <= 0x7FFF_FFFF);
        if !type_ok {
            proof {
                assert(!elf_segment_ok(data@, i as int));
            }
            return Err(LoadError::BadSegment);
        }
        if t == 1 {
            if s_offset > data.len() as u64 || s_filesz > data.len() as u64 - s_offset {
                proof {
                    assert(!elf_segment_ok(data@, i as int));
                }
                return Err(LoadError::BadSegment);
            }
            if s_filesz > s_memsz {
                proof {
                    assert(!elf_segment_ok(data@, i as int));
                }
                return Err(LoadError::BadSegment);
            }
            if s_memsz > u64::MAX - s_vaddr {
                proof {
                    assert(!elf_segment_ok(data@, i as int));
                }
                return Err(LoadError::BadSegment);
            }
        }
        segments.push(
            Segment { seg_type: t, offset: s_offset, vaddr: s_vaddr, filesz: s_filesz, memsz: s_memsz },
        );
    }
    Ok(ElfImage { entry, segments })
}

/// An aligned page that loadable program header `i` claims: inside the
/// page-aligned cover of its declared memory range.
pub open spec fn seg_page(d: Seq<u8>, i: int, q: u64) -> bool {
    &&& 0 <= i < elf_phnum(d)
    &&& seg_type_of(d, i) == 1
    &&& seg_vaddr_of(d, i) != 0
    &&& seg_memsz_of(d, i) > 0
    &&& q % 4096 == 0
    &&& seg_vaddr_of(d, i) - (seg_vaddr_of(d, i) % 4096) <= q
    &&& q <= seg_vaddr_of(d, i) + seg_memsz_of(d, i) - 1 - ((seg_vaddr_of(d, i)
        + seg_memsz_of(d, i) - 1) % 4096)
}

/// True iff header `i` is the image's only loadable header with a
/// nonzero address — the common single-segment layout.
pub open spec fn sole_load_segment(d: Seq<u8>, i: int) -> bool {
    &&& 0 <= i < elf_phnum(d)
    &&& seg_type_of(d, i) == 1
    &&& seg_vaddr_of(d, i) != 0
    &&& forall|j: int|
        0 <= j < elf_phnum(d) && j != i ==> !((#[trigger] seg_type_of(d, j)) == 1 && seg_vaddr_of(
            d,
            j,
        ) != 0)
}

/// True iff the page-aligned cover of `[va, va + memsz)` lies in the low
/// canonical half and is wholly unmapped under `m` — the virgin territory
/// a program is normally loaded into.
pub open spec fn cover_unmapped(
    m: Map<u64, (nat, Seq<u64>)>,
    root: u64,
    va: u64,
    memsz: u64,
) -> bool {
    &&& memsz > 0
    &&& va + memsz <= 0x1_0000_0000_0000
    &&& forall|q: u64|
        q % 4096 == 0 && page_base(va) <= q && q <= page_base((va + memsz - 1) as u64) ==> (
        #[trigger] translate_spec(m, root, q)) is None
}

proof fn lemma_bytes_distinct(fu: int, ou: int, fv: int, ov: int)
    requires
        fu % 4096 == 0,
        fv % 4096 == 0,
        0 <= ou < 4096,
        0 <= ov < 4096,
        fu != fv || ou != ov,
        fu >= 0,
        fv >= 0,
    ensures
        fu + ou != fv + ov,
{
    if fu + ou == fv + ov {
        vstd::arithmetic::div_mod::lemma_add_mod_noop(fu, ou, 4096);
        vstd::arithmetic::div_mod::lemma_add_mod_noop(fv, ov, 4096);
        vstd::arithmetic::div_mod::lemma_small_mod(ou as nat, 4096nat);
        vstd::arithmetic::div_mod::lemma_small_mod(ov as nat, 4096nat);
        assert(ou == ov);
    }
}

/// Maps one loadable range into the active space (fresh pages present,
/// writable, user-accessible; pages that already translate are reused),
/// copies the file-backed prefix byte for byte and zero-fills the
/// remainder. Resource failures surface as errors with every frame used;
/// nothing already mapped changes its translation.
#[verifier::rlimit(100)]
fn load_segment(
    mm: &mut MemoryManager,
    data: &Vec<u8>,
    seg: Segment,
    Ghost(si): Ghost<int>,
) -> (r: Result<(), LoadError>)
    requires
        old(mm).wf(),
        elf_header_ok(data@),
        elf_segments_ok(data@),
        0 <= si < elf_phnum(data@),
        seg.seg_type as int == seg_type_of(data@, si),
        seg.offset as int == seg_offset_of(data@, si),
        seg.vaddr as int == seg_vaddr_of(data@, si),
        seg.filesz as int == seg_filesz_of(data@, si),
        seg.memsz as int == seg_memsz_of(data@, si),
        seg.seg_type == 1,
        seg.vaddr != 0,
    ensures
        final(mm).wf(),
        final(mm).roots_seq() == old(mm).roots_seq(),
        final(mm).root() == old(mm).root(),
        final(mm).offset() == old(mm).offset(),
        forall|w: u64|
            translate_spec(old(mm).pt(), old(mm).root(), w) is Some ==> #[trigger] translate_spec(
                final(mm).pt(),
                final(mm).root(),
                w,
            ) == translate_spec(old(mm).pt(), old(mm).root(), w),
        forall|w: u64|
            translate_spec(old(mm).pt(), old(mm).root(), w) is Some ==> #[trigger] present_leaf_flags(
                final(mm).pt(),
                final(mm).root(),
                w,
            ) == present_leaf_flags(old(mm).pt(), old(mm).root(), w),
        forall|w: u64|
            translate_spec(old(mm).pt(), old(mm).root(), w) is None && (#[trigger] translate_spec(
                final(mm).pt(),
                final(mm).root(),
                w,
            )) is Some ==> (present_leaf_flags(final(mm).pt(), final(mm).root(), w) matches Some(
                fl,
            ) && entry_user(fl) && entry_writable(fl)),
        cover_unmapped(old(mm).pt(), old(mm).root(), seg.vaddr, seg.memsz) && r is Ok ==> (forall|
            k: int,
        |
            0 <= k < seg.filesz ==> #[trigger] virt_byte(
                final(mm).pt(),
                final(mm).ram_map(),
                final(mm).root(),
                (seg.vaddr + k) as u64,
            ) == data@[seg.offset + k]) && (forall|k: int|
            seg.filesz <= k < seg.memsz ==> #[trigger] virt_byte(
                final(mm).pt(),
                final(mm).ram_map(),
                final(mm).root(),
                (seg.vaddr + k) as u64,
            ) == 0u8),
        match r {
            Ok(()) => forall|q: u64|
                #[trigger] seg_page(data@, si, q) ==> translate_spec(
                    final(mm).pt(),
                    final(mm).root(),
                    q,
                ) is Some,
            Err(e) => {
                &&& (e == LoadError::OutOfMemory || e == LoadError::MapFailed)
                &&& forall|fi: int|
                    0 <= fi < final(mm).allocator().total()
                        ==> #[trigger] final(mm).allocator().bits()[fi]
            },
        },
{
    proof {
        assert(elf_segment_ok(data@, si));
        assert(seg.offset + seg.filesz <= data.len());
        assert(seg.filesz <= seg.memsz);
        assert(seg.vaddr + seg.memsz <= u64::MAX);
        lemma_index_bounds(seg.vaddr);
    }
    let first_page = seg.vaddr & !0xFFFu64;
    let last_addr = if seg.memsz == 0 {
        seg.vaddr - 1
    } else {
        seg.vaddr + (seg.memsz - 1)
    };
    let last_page = last_addr & !0xFFFu64;
    let ghost cover_fresh = cover_unmapped(old(mm).pt(), old(mm).root(), seg.vaddr, seg.memsz);
    proof {
        lemma_index_bounds(last_addr);
        assert(last_page <= 0xFFFF_FFFF_FFFF_F000) by (bit_vector)
            requires
                last_page == last_addr & !0xFFFu64,
        ;
        if seg.memsz > 0 {
            lemma_page_base_monotonic(seg.vaddr, last_addr);
        }
        if cover_fresh {
            assert(last_addr < 0x1_0000_0000_0000);
            assert(last_page < 0x1_0000_0000_0000);
        }
    }
    if first_page <= last_page {
        let mut pa = first_page;
        loop
            invariant_except_break
                cover_fresh ==> forall|q: u64|
                    q % 4096 == 0 && pa <= q && q <= last_page ==> (#[trigger] translate_spec(
                        mm.pt(),
                        mm.root(),
                        q,
                    )) is None,
            invariant
                mm.wf(),
                mm.roots_seq() == old(mm).roots_seq(),
                mm.root() == old(mm).root(),
                mm.offset() == old(mm).offset(),
                pa % 4096 == 0,
                last_page % 4096 == 0,
                first_page <= pa <= last_page,
                last_page <= 0xFFFF_FFFF_FFFF_F000,
                forall|w: u64|
                    translate_spec(old(mm).pt(), old(mm).root(), w) is Some
                        ==> #[trigger] translate_spec(mm.pt(), mm.root(), w) == translate_spec(
                        old(mm).pt(),
                        old(mm).root(),
                        w,
                    ),
                forall|w: u64|
                    translate_spec(old(mm).pt(), old(mm).root(), w) is Some
                        ==> #[trigger] present_leaf_flags(mm.pt(), mm.root(), w)
                        == present_leaf_flags(old(mm).pt(), old(mm).root(), w),
                forall|w: u64|
                    translate_spec(old(mm).pt(), old(mm).root(), w) is None && (
                    #[trigger] translate_spec(mm.pt(), mm.root(), w)) is Some ==> (
                    present_leaf_flags(mm.pt(), mm.root(), w) matches Some(fl) && entry_user(fl)
                        && entry_writable(fl)),
                forall|q: u64|
                    q % 4096 == 0 && first_page <= q && q < pa ==> #[trigger] translate_spec(
                        mm.pt(),
                        mm.root(),
                        q,
                    ) is Some,
                cover_fresh ==> seg.memsz > 0 && seg.vaddr + seg.memsz
                    <= 0x1_0000_0000_0000 && last_page < 0x1_0000_0000_0000,
                cover_fresh ==> forall|q: u64|
                    q % 4096 == 0 && first_page <= q && q < pa ==> ((#[trigger] translate_spec(
                        mm.pt(),
                        mm.root(),
                        q,
                    )) matches Some(fq) && fq % 4096 == 0 && 0 <= fq as int / 4096 < mm.allocator()
                        .total() && mm.allocator().bits()[fq as int / 4096]),
                cover_fresh ==> forall|q1: u64, q2: u64|
                    q1 % 4096 == 0 && q2 % 4096 == 0 && first_page <= q1 && q1 < pa && first_page
                        <= q2 && q2 < pa && q1 != q2 ==> (#[trigger] translate_spec(
                        mm.pt(),
                        mm.root(),
                        q1,
                    )) != (#[trigger] translate_spec(mm.pt(), mm.root(), q2)),
            ensures
                mm.wf(),
                mm.roots_seq() == old(mm).roots_seq(),
                mm.root() == old(mm).root(),
                mm.offset() == old(mm).offset(),
                forall|w: u64|
                    translate_spec(old(mm).pt(), old(mm).root(), w) is Some
                        ==> #[trigger] translate_spec(mm.pt(), mm.root(), w) == translate_spec(
                        old(mm).pt(),
                        old(mm).root(),
                        w,
                    ),
                forall|w: u64|
                    translate_spec(old(mm).pt(), old(mm).root(), w) is Some
                        ==> #[trigger] present_leaf_flags(mm.pt(), mm.root(), w)
                        == present_leaf_flags(old(mm).pt(), old(mm).root(), w),
                forall|w: u64|
                    translate_spec(old(mm).pt(), old(mm).root(), w) is None && (
                    #[trigger] translate_spec(mm.pt(), mm.root(), w)) is Some ==> (
                    present_leaf_flags(mm.pt(), mm.root(), w) matches Some(fl) && entry_user(fl)
                        && entry_writable(fl)),
                forall|q: u64|
                    q % 4096 == 0 && first_page <= q && q <= last_page ==> #[trigger] translate_spec(
                        mm.pt(),
                        mm.root(),
                        q,
                    ) is Some,
                cover_fresh ==> forall|q: u64|
                    q % 4096 == 0 && first_page <= q && q <= last_page ==> ((
                    #[trigger] translate_spec(mm.pt(), mm.root(), q)) matches Some(fq) && fq % 4096
                        == 0 && 0 <= fq as int / 4096 < mm.allocator().total() && mm.allocator()
                        .bits()[fq as int / 4096]),
                cover_fresh ==> forall|q1: u64, q2: u64|
                    q1 % 4096 == 0 && q2 % 4096 == 0 && first_page <= q1 && q1 <= last_page
                        && first_page <= q2 && q2 <= last_page && q1 != q2 ==> (
                    #[trigger] translate_spec(mm.pt(), mm.root(), q1)) != (#[trigger] translate_spec(
                        mm.pt(),
                        mm.root(),
                        q2,
                    )),
            decreases last_page - pa,
        {
            proof {
                assert((PAGE_PRESENT | PAGE_WRITABLE | PAGE_USER) == 7u64) by (bit_vector);
                assert(7u64 & 0xFFF == 7u64 && 7u64 & 1 == 1u64 && 7u64 & 2 == 2u64 && 7u64 & 4
                    == 4u64) by (bit_vector);
            }
            let ghost sh = *mm;
            let pre_translation = mm.translate(pa);
            if pre_translation.is_none() {
                let frame = match mm.alloc_frame() {
                    Some(f) => f,
                    None => {
                        return Err(LoadError::OutOfMemory);
                    },
                };
                let ghost sp = *mm;
                proof {
                    lemma_index_bounds(frame);
                    assert(page_base(frame) & ENTRY_ADDR_MASK == page_base(frame)) by (bit_vector)
                        requires
                            frame < 0x10_0000_0000_0000,
                    ;
                    lemma_make_entry(page_base(frame), 7u64);
                }
                match mm.map_page(pa, frame, PAGE_PRESENT | PAGE_WRITABLE | PAGE_USER) {
                    Ok(_) => {},
                    Err(e) => {
                        proof {
                            if e == crate::vmm::MemError::AlreadyMapped {
                                assert(translate_spec(sp.pt(), sp.root(), pa) is Some);
                                assert(false);
                            }
                            assert forall|w: u64|
                                translate_spec(old(mm).pt(), old(mm).root(), w) is Some implies (
                            #[trigger] translate_spec(mm.pt(), mm.root(), w)) == translate_spec(
                                old(mm).pt(),
                                old(mm).root(),
                                w,
                            ) by {
                                assert(translate_spec(mm.pt(), mm.root(), w) == translate_spec(
                                    sp.pt(),
                                    sp.root(),
                                    w,
                                ));
                            }
                            assert forall|w: u64|
                                translate_spec(old(mm).pt(), old(mm).root(), w) is Some implies (
                            #[trigger] present_leaf_flags(mm.pt(), mm.root(), w))
                                == present_leaf_flags(old(mm).pt(), old(mm).root(), w) by {
                                assert(translate_spec(mm.pt(), mm.root(), w) == translate_spec(
                                    sp.pt(),
                                    sp.root(),
                                    w,
                                ));
                                assert(present_leaf_flags(mm.pt(), mm.root(), w)
                                    == present_leaf_flags(sp.pt(), sp.root(), w));
                            }
                            assert forall|w: u64|
                                translate_spec(old(mm).pt(), old(mm).root(), w) is None && (
                            #[trigger] translate_spec(mm.pt(), mm.root(), w)) is Some implies (
                            present_leaf_flags(mm.pt(), mm.root(), w) matches Some(fl)
                                && entry_user(fl) && entry_writable(fl)) by {
                                assert(translate_spec(mm.pt(), mm.root(), w) == translate_spec(
                                    sp.pt(),
                                    sp.root(),
                                    w,
                                ));
                                assert(present_leaf_flags(mm.pt(), mm.root(), w)
                                    == present_leaf_flags(sp.pt(), sp.root(), w));
                            }
                        }
                        return Err(LoadError::MapFailed);
                    },
                }
                proof {
                    assert forall|w: u64|
                        translate_spec(old(mm).pt(), old(mm).root(), w) is Some implies (
                    #[trigger] translate_spec(mm.pt(), mm.root(), w)) == translate_spec(
                        old(mm).pt(),
                        old(mm).root(),
                        w,
                    ) by {
                        if same_page(w, pa) {
                            lemma_same_page_same_walk(sp.pt(), sp.root(), w, pa);
                            assert(false);
                        }
                    }
                    assert forall|w: u64|
                        translate_spec(old(mm).pt(), old(mm).root(), w) is Some implies (
                    #[trigger] present_leaf_flags(mm.pt(), mm.root(), w)) == present_leaf_flags(
                        old(mm).pt(),
                        old(mm).root(),
                        w,
                    ) by {
                        if same_page(w, pa) {
                            lemma_same_page_same_walk(sp.pt(), sp.root(), w, pa);
                            assert(false);
                        } else {
                            assert(translate_spec(mm.pt(), mm.root(), w) == translate_spec(
                                sp.pt(),
                                sp.root(),
                                w,
                            ));
                            assert(present_leaf_flags(mm.pt(), mm.root(), w)
                                == present_leaf_flags(sp.pt(), sp.root(), w));
                        }
                    }
                    assert forall|w: u64|
                        translate_spec(old(mm).pt(), old(mm).root(), w) is None && (
                    #[trigger] translate_spec(mm.pt(), mm.root(), w)) is Some implies (
                    present_leaf_flags(mm.pt(), mm.root(), w) matches Some(fl) && entry_user(fl)
                        && entry_writable(fl)) by {
                        if same_page(w, pa) {
                            assert(l1e(mm.pt(), mm.root(), w) == Some(page_base(frame) | 7u64));
                            assert(present_leaf_flags(mm.pt(), mm.root(), w) == Some(7u64));
                        } else {
                            if translate_spec(sp.pt(), sp.root(), w) is Some {
                                assert(present_leaf_flags(sp.pt(), sp.root(), w) matches Some(fl)
                                    && entry_user(fl) && entry_writable(fl));
                            }
                        }
                    }
                    assert forall|q: u64|
                        q % 4096 == 0 && first_page <= q && q < pa + 4096 implies #[trigger] translate_spec(
                        mm.pt(),
                        mm.root(),
                        q,
                    ) is Some by {
                        if q == pa {
                            assert(translate_spec(mm.pt(), mm.root(), pa) is Some);
                        } else if same_page(q, pa) {
                            lemma_same_page_same_walk(mm.pt(), mm.root(), q, pa);
                        } else {
                            assert(translate_spec(sp.pt(), sp.root(), q) is Some);
                        }
                    }
                    if cover_fresh {
                        crate::vmm::lemma_allocator_wf(sh);
                        crate::vmm::lemma_allocator_wf(*mm);
                        crate::pmm::lemma_wf_bounds(sh.allocator());
                        crate::pmm::lemma_wf_bounds(mm.allocator());
                        lemma_index_bounds(pa);
                        lemma_index_bounds(frame);
                        assert(frame as int % 4096 == 0) by {
                            vstd::arithmetic::div_mod::lemma_mod_multiples_basic(
                                frame as int / 4096,
                                4096,
                            );
                        }
                        assert(page_base(frame) == frame);
                        assert(page_offset(pa) == 0);
                        assert(translate_spec(mm.pt(), mm.root(), pa) == Some(frame));
                        vstd::arithmetic::div_mod::lemma_div_by_multiple(
                            frame as int / 4096,
                            4096,
                        );
                        assert(0 <= frame as int / 4096 < mm.allocator().total());
                        assert(mm.allocator().bits()[frame as int / 4096]);
                        assert forall|q: u64|
                            q % 4096 == 0 && first_page <= q && q < pa + 4096 implies ((
                        #[trigger] translate_spec(mm.pt(), mm.root(), q)) matches Some(fq) && fq
                            % 4096 == 0 && 0 <= fq as int / 4096 < mm.allocator().total()
                            && mm.allocator().bits()[fq as int / 4096]) by {
                            if q == pa {
                            } else {
                                lemma_low_pages_distinct(q, pa);
                                assert(translate_spec(mm.pt(), mm.root(), q) == translate_spec(
                                    sh.pt(),
                                    sh.root(),
                                    q,
                                ));
                            }
                        }
                        assert forall|q1: u64, q2: u64|
                            q1 % 4096 == 0 && q2 % 4096 == 0 && first_page <= q1 && q1 < pa + 4096
                                && first_page <= q2 && q2 < pa + 4096 && q1 != q2 implies (
                        #[trigger] translate_spec(mm.pt(), mm.root(), q1)) != (
                        #[trigger] translate_spec(mm.pt(), mm.root(), q2)) by {
                            if q1 == pa || q2 == pa {
                                let qo = if q1 == pa {
                                    q2
                                } else {
                                    q1
                                };
                                lemma_low_pages_distinct(qo, pa);
                                assert(translate_spec(mm.pt(), mm.root(), qo) == translate_spec(
                                    sh.pt(),
                                    sh.root(),
                                    qo,
                                ));
                                let fo = translate_spec(sh.pt(), sh.root(), qo)->Some_0;
                                assert(sh.allocator().bits()[fo as int / 4096]);
                                assert(!sh.allocator().bits()[frame as int / 4096]);
                                assert(fo as int / 4096 != frame as int / 4096);
                            } else {
                                lemma_low_pages_distinct(q1, pa);
                                lemma_low_pages_distinct(q2, pa);
                                assert(translate_spec(mm.pt(), mm.root(), q1) == translate_spec(
                                    sh.pt(),
                                    sh.root(),
                                    q1,
                                ));
                                assert(translate_spec(mm.pt(), mm.root(), q2) == translate_spec(
                                    sh.pt(),
                                    sh.root(),
                                    q2,
                                ));
                            }
                        }
                        assert forall|q: u64|
                            q % 4096 == 0 && pa + 4096 <= q && q <= last_page implies (
                        #[trigger] translate_spec(mm.pt(), mm.root(), q)) is None by {
                            lemma_low_pages_distinct(q, pa);
                            assert(translate_spec(mm.pt(), mm.root(), q) == translate_spec(
                                sh.pt(),
                                sh.root(),
                                q,
                            ));
                        }
                    }
                }
            } else {
                proof {
                    if cover_fresh {
                        assert(translate_spec(mm.pt(), mm.root(), pa) is None);
                        assert(false);
                    }
                    assert forall|q: u64|
                        q % 4096 == 0 && first_page <= q && q < pa + 4096 implies #[trigger] translate_spec(
                        mm.pt(),
                        mm.root(),
                        q,
                    ) is Some by {}
                }
            }
            if pa == last_page {
                break ;
            }
            pa = pa + 4096;
        }
    }
    // the file-backed prefix, byte for byte; the mapped cover holds every
    // byte of it, so no write can miss
    let mut off: u64 = 0;
    while off < seg.filesz
        invariant
            mm.wf(),
            mm.roots_seq() == old(mm).roots_seq(),
            mm.root() == old(mm).root(),
            mm.offset() == old(mm).offset(),
            off <= seg.filesz,
            seg.offset + seg.filesz <= data.len(),
            seg.filesz <= seg.memsz,
            seg.vaddr + seg.memsz <= u64::MAX,
            seg.vaddr != 0,
            first_page == page_base(seg.vaddr),
            seg.memsz > 0 ==> last_page == page_base((seg.vaddr + seg.memsz - 1) as u64),
            forall|w: u64|
                translate_spec(old(mm).pt(), old(mm).root(), w) is Some
                    ==> #[trigger] translate_spec(mm.pt(), mm.root(), w) == translate_spec(
                    old(mm).pt(),
                    old(mm).root(),
                    w,
                ),
            forall|w: u64|
                translate_spec(old(mm).pt(), old(mm).root(), w) is Some
                    ==> #[trigger] present_leaf_flags(mm.pt(), mm.root(), w) == present_leaf_flags(
                    old(mm).pt(),
                    old(mm).root(),
                    w,
                ),
            forall|w: u64|
                translate_spec(old(mm).pt(), old(mm).root(), w) is None && (
                #[trigger] translate_spec(mm.pt(), mm.root(), w)) is Some ==> (present_leaf_flags(
                    mm.pt(),
                    mm.root(),
                    w,
                ) matches Some(fl) && entry_user(fl) && entry_writable(fl)),
            seg.memsz > 0 ==> forall|q: u64|
                q % 4096 == 0 && first_page <= q && q <= last_page ==> #[trigger] translate_spec(
                    mm.pt(),
                    mm.root(),
                    q,
                ) is Some,
            cover_fresh ==> seg.memsz > 0 && seg.vaddr + seg.memsz <= 0x1_0000_0000_0000,
            cover_fresh ==> forall|q1: u64, q2: u64|
                q1 % 4096 == 0 && q2 % 4096 == 0 && first_page <= q1 && q1 <= last_page
                    && first_page <= q2 && q2 <= last_page && q1 != q2 ==> (
                #[trigger] translate_spec(mm.pt(), mm.root(), q1)) != (#[trigger] translate_spec(
                    mm.pt(),
                    mm.root(),
                    q2,
                )),
            cover_fresh ==> forall|k: int|
                0 <= k < off ==> #[trigger] virt_byte(
                    mm.pt(),
                    mm.ram_map(),
                    mm.root(),
                    (seg.vaddr + k) as u64,
                ) == data@[seg.offset + k],
        decreases seg.filesz - off,
    {
        let v = seg.vaddr + off;
        let ghost qv = page_base(v);
        proof {
            lemma_index_bounds(v);
            lemma_page_base_monotonic(seg.vaddr, v);
            lemma_page_base_monotonic(v, (seg.vaddr + seg.memsz - 1) as u64);
            assert(translate_spec(mm.pt(), mm.root(), qv) is Some);
            lemma_page_base_same_indices(v, v);
            lemma_same_page_same_walk(mm.pt(), mm.root(), qv, v);
            if cover_fresh {
                lemma_index_bounds(qv);
                let e1 = l1e(mm.pt(), mm.root(), qv)->Some_0;
                lemma_entry_addr_props(e1);
            }
        }
        let ghost pre = *mm;
        let b = data[(seg.offset + off) as usize];
        match mm.write_virt_byte(v, b) {
            Ok(_) => {},
            Err(_) => {
                proof {
                    assert(false);
                }
                return Err(LoadError::MapFailed);
            },
        }
        proof {
            if cover_fresh {
                lemma_index_bounds(qv);
                let e1 = l1e(pre.pt(), pre.root(), qv)->Some_0;
                lemma_entry_addr_props(e1);
                let fv = translate_spec(pre.pt(), pre.root(), qv)->Some_0;
                let pv = translate_spec(pre.pt(), pre.root(), v)->Some_0;
                assert(fv == entry_addr(e1) && pv == fv + page_offset(v));
                assert forall|k: int|
                    0 <= k < off + 1 implies #[trigger] virt_byte(
                    mm.pt(),
                    mm.ram_map(),
                    mm.root(),
                    (seg.vaddr + k) as u64,
                ) == data@[seg.offset + k] by {
                    let u = (seg.vaddr + k) as u64;
                    if k == off as int {
                        assert(u == v);
                    } else {
                        lemma_index_bounds(u);
                        lemma_page_base_monotonic(seg.vaddr, u);
                        lemma_page_base_monotonic(u, (seg.vaddr + seg.memsz - 1) as u64);
                        let qu = page_base(u);
                        lemma_index_bounds(qu);
                        lemma_page_base_same_indices(u, u);
                        lemma_same_page_same_walk(pre.pt(), pre.root(), qu, u);
                        let e1u = l1e(pre.pt(), pre.root(), qu)->Some_0;
                        lemma_entry_addr_props(e1u);
                        let fu = translate_spec(pre.pt(), pre.root(), qu)->Some_0;
                        let pu = translate_spec(pre.pt(), pre.root(), u)->Some_0;
                        assert(fu == entry_addr(e1u) && pu == fu + page_offset(u));
                        if qu == qv {
                            assert(page_offset(u) != page_offset(v));
                        } else {
                            assert(translate_spec(pre.pt(), pre.root(), qu) != translate_spec(
                                pre.pt(),
                                pre.root(),
                                qv,
                            ));
                        }
                        lemma_bytes_distinct(
                            fu as int,
                            page_offset(u) as int,
                            fv as int,
                            page_offset(v) as int,
                        );
                        assert(pu != pv);
                        assert(virt_byte(pre.pt(), pre.ram_map(), pre.root(), u) == data@[
                            seg.offset + k]);
                    }
                }
            }
        }
        off = off + 1;
    }
    // the zero-filled remainder
    let mut off: u64 = seg.filesz;
    while off < seg.memsz
        invariant
            mm.wf(),
            mm.roots_seq() == old(mm).roots_seq(),
            mm.root() == old(mm).root(),
            mm.offset() == old(mm).offset(),
            seg.filesz <= off <= seg.memsz,
            seg.vaddr + seg.memsz <= u64::MAX,
            seg.vaddr != 0,
            first_page == page_base(seg.vaddr),
            seg.memsz > 0 ==> last_page == page_base((seg.vaddr + seg.memsz - 1) as u64),
            forall|w: u64|
                translate_spec(old(mm).pt(), old(mm).root(), w) is Some
                    ==> #[trigger] translate_spec(mm.pt(), mm.root(), w) == translate_spec(
                    old(mm).pt(),
                    old(mm).root(),
                    w,
                ),
            forall|w: u64|
                translate_spec(old(mm).pt(), old(mm).root(), w) is Some
                    ==> #[trigger] present_leaf_flags(mm.pt(), mm.root(), w) == present_leaf_flags(
                    old(mm).pt(),
                    old(mm).root(),
                    w,
                ),
            forall|w: u64|
                translate_spec(old(mm).pt(), old(mm).root(), w) is None && (
                #[trigger] translate_spec(mm.pt(), mm.root(), w)) is Some ==> (present_leaf_flags(
                    mm.pt(),
                    mm.root(),
                    w,
                ) matches Some(fl) && entry_user(fl) && entry_writable(fl)),
            seg.memsz > 0 ==> forall|q: u64|
                q % 4096 == 0 && first_page <= q && q <= last_page ==> #[trigger] translate_spec(
                    mm.pt(),
                    mm.root(),
                    q,
                ) is Some,
            cover_fresh ==> seg.memsz > 0 && seg.vaddr + seg.memsz <= 0x1_0000_0000_0000,
            cover_fresh ==> forall|q1: u64, q2: u64|
                q1 % 4096 == 0 && q2 % 4096 == 0 && first_page <= q1 && q1 <= last_page
                    && first_page <= q2 && q2 <= last_page && q1 != q2 ==> (
                #[trigger] translate_spec(mm.pt(), mm.root(), q1)) != (#[trigger] translate_spec(
                    mm.pt(),
                    mm.root(),
                    q2,
                )),
            cover_fresh ==> forall|k: int|
                0 <= k < seg.filesz ==> #[trigger] virt_byte(
                    mm.pt(),
                    mm.ram_map(),
                    mm.root(),
                    (seg.vaddr + k) as u64,
                ) == data@[seg.offset + k],
            cover_fresh ==> forall|k: int|
                seg.filesz <= k < off ==> #[trigger] virt_byte(
                    mm.pt(),
                    mm.ram_map(),
                    mm.root(),
                    (seg.vaddr + k) as u64,
                ) == 0u8,
        decreases seg.memsz - off,
    {
        let v = seg.vaddr + off;
        let ghost qv = page_base(v);
        proof {
            lemma_index_bounds(v);
            lemma_page_base_monotonic(seg.vaddr, v);
            lemma_page_base_monotonic(v, (seg.vaddr + seg.memsz - 1) as u64);
            assert(translate_spec(mm.pt(), mm.root(), qv) is Some);
            lemma_page_base_same_indices(v, v);
            lemma_same_page_same_walk(mm.pt(), mm.root(), qv, v);
            if cover_fresh {
                lemma_index_bounds(qv);
                let e1 = l1e(mm.pt(), mm.root(), qv)->Some_0;
                lemma_entry_addr_props(e1);
            }
        }
        let ghost pre = *mm;
        match mm.write_virt_byte(v, 0) {
            Ok(_) => {},
            Err(_) => {
                proof {
                    assert(false);
                }
                return Err(LoadError::MapFailed);
            },
        }
        proof {
            if cover_fresh {
                lemma_index_bounds(qv);
                let e1 = l1e(pre.pt(), pre.root(), qv)->Some_0;
                lemma_entry_addr_props(e1);
                let fv = translate_spec(pre.pt(), pre.root(), qv)->Some_0;
                let pv = translate_spec(pre.pt(), pre.root(), v)->Some_0;
                assert(fv == entry_addr(e1) && pv == fv + page_offset(v));
                assert forall|k: int|
                    0 <= k < seg.filesz implies #[trigger] virt_byte(
                    mm.pt(),
                    mm.ram_map(),
                    mm.root(),
                    (seg.vaddr + k) as u64,
                ) == data@[seg.offset + k] by {
                    let u = (seg.vaddr + k) as u64;
                    lemma_index_bounds(u);
                    lemma_page_base_monotonic(seg.vaddr, u);
                    lemma_page_base_monotonic(u, (seg.vaddr + seg.memsz - 1) as u64);
                    let qu = page_base(u);
                    lemma_index_bounds(qu);
                    lemma_page_base_same_indices(u, u);
                    lemma_same_page_same_walk(pre.pt(), pre.root(), qu, u);
                    let e1u = l1e(pre.pt(), pre.root(), qu)->Some_0;
                    lemma_entry_addr_props(e1u);
                    let fu = translate_spec(pre.pt(), pre.root(), qu)->Some_0;
                    let pu = translate_spec(pre.pt(), pre.root(), u)->Some_0;
                    assert(fu == entry_addr(e1u) && pu == fu + page_offset(u));
                    if qu == qv {
                        assert(page_offset(u) != page_offset(v));
                    } else {
                        assert(translate_spec(pre.pt(), pre.root(), qu) != translate_spec(
                            pre.pt(),
                            pre.root(),
                            qv,
                        ));
                    }
                    lemma_bytes_distinct(
                        fu as int,
                        page_offset(u) as int,
                        fv as int,
                        page_offset(v) as int,
                    );
                    assert(pu != pv);
                    assert(virt_byte(pre.pt(), pre.ram_map(), pre.root(), u) == data@[seg.offset
                        + k]);
                }
                assert forall|k: int|
                    seg.filesz <= k < off + 1 implies #[trigger] virt_byte(
                    mm.pt(),
                    mm.ram_map(),
                    mm.root(),
                    (seg.vaddr + k) as u64,
                ) == 0u8 by {
                    let u = (seg.vaddr + k) as u64;
                    if k == off as int {
                        assert(u == v);
                    } else {
                        lemma_index_bounds(u);
                        lemma_page_base_monotonic(seg.vaddr, u);
                        lemma_page_base_monotonic(u, (seg.vaddr + seg.memsz - 1) as u64);
                        let qu = page_base(u);
                        lemma_index_bounds(qu);
                        lemma_page_base_same_indices(u, u);
                        lemma_same_page_same_walk(pre.pt(), pre.root(), qu, u);
                        let e1u = l1e(pre.pt(), pre.root(), qu)->Some_0;
                        lemma_entry_addr_props(e1u);
                        let fu = translate_spec(pre.pt(), pre.root(), qu)->Some_0;
                        let pu = translate_spec(pre.pt(), pre.root(), u)->Some_0;
                        assert(fu == entry_addr(e1u) && pu == fu + page_offset(u));
                        if qu == qv {
                            assert(page_offset(u) != page_offset(v));
                        } else {
                            assert(translate_spec(pre.pt(), pre.root(), qu) != translate_spec(
                                pre.pt(),
                                pre.root(),
                                qv,
                            ));
                        }
                        lemma_bytes_distinct(
                            fu as int,
                            page_offset(u) as int,
                            fv as int,
                            page_offset(v) as int,
                        );
                        assert(pu != pv);
                        assert(virt_byte(pre.pt(), pre.ram_map(), pre.root(), u) == 0u8);
                    }
                }
            }
        }
        off = off + 1;
    }
    proof {
        if seg.memsz > 0 {
            lemma_index_bounds(seg.vaddr);
            lemma_index_bounds((seg.vaddr + seg.memsz - 1) as u64);
            assert forall|q: u64| #[trigger]
                seg_page(data@, si, q) implies translate_spec(mm.pt(), mm.root(), q) is Some by {
                assert(first_page <= q <= last_page);
            }
        }
    }
    Ok(())
}

/// Loads a parsed-checked executable image into the active address
/// space: maps every loadable segment's pages (fresh pages present,
/// writable and user-accessible), copies the file-backed bytes,
/// zero-fills the remainder, then maps the fixed 16-page user stack
/// below its fixed top address. Returns the entry point and stack top
/// for the privilege transition. Nothing mapped before the call changes
/// its translation or its leaf flags, and on failure the kernel keeps
/// running with the mappings made so far left in place.
pub fn load_elf(mm: &mut MemoryManager, data: &Vec<u8>) -> (r: Result<LaunchPlan, LoadError>)
    requires
        old(mm).wf(),
    ensures
        final(mm).wf(),
        final(mm).roots_seq() == old(mm).roots_seq(),
        final(mm).root() == old(mm).root(),
        final(mm).offset() == old(mm).offset(),
        forall|w: u64|
            translate_spec(old(mm).pt(), old(mm).root(), w) is Some ==> #[trigger] translate_spec(
                final(mm).pt(),
                final(mm).root(),
                w,
            ) == translate_spec(old(mm).pt(), old(mm).root(), w),
        forall|w: u64|
            translate_spec(old(mm).pt(), old(mm).root(), w) is None && (#[trigger] translate_spec(
                final(mm).pt(),
                final(mm).root(),
                w,
            )) is Some ==> (present_leaf_flags(final(mm).pt(), final(mm).root(), w) matches Some(
                fl,
            ) && entry_user(fl) && entry_writable(fl)),
        match r {
            Ok(plan) => {
                &&& elf_header_ok(data@)
                &&& elf_segments_ok(data@)
                &&& plan.entry as int == elf_entry(data@)
                &&& plan.stack_top == USER_STACK_TOP
                &&& forall|i: int, q: u64|
                    #[trigger] seg_page(data@, i, q) ==> translate_spec(
                        final(mm).pt(),
                        final(mm).root(),
                        q,
                    ) is Some
                &&& forall|j: int|
                    0 <= j < 16 ==> (#[trigger] translate_spec(
                        final(mm).pt(),
                        final(mm).root(),
                        (USER_STACK_TOP - 16 * 4096 + j * 4096) as u64,
                    )) is Some
                &&& forall|i: int|
                    #[trigger] sole_load_segment(data@, i) && cover_unmapped(
                        old(mm).pt(),
                        old(mm).root(),
                        seg_vaddr_of(data@, i) as u64,
                        seg_memsz_of(data@, i) as u64,
                    ) && (seg_vaddr_of(data@, i) + seg_memsz_of(data@, i) <= USER_STACK_TOP - 16
                        * 4096 || seg_vaddr_of(data@, i) >= USER_STACK_TOP) ==> (forall|k: int|
                        0 <= k < seg_filesz_of(data@, i) ==> #[trigger] virt_byte(
                            final(mm).pt(),
                            final(mm).ram_map(),
                            final(mm).root(),
                            (seg_vaddr_of(data@, i) + k) as u64,
                        ) == data@[seg_offset_of(data@, i) + k]) && (forall|k: int|
                        seg_filesz_of(data@, i) <= k < seg_memsz_of(data@, i)
                            ==> #[trigger] virt_byte(
                            final(mm).pt(),
                            final(mm).ram_map(),
                            final(mm).root(),
                            (seg_vaddr_of(data@, i) + k) as u64,
                        ) == 0u8)
            },
            Err(e) => {
                &&& e != LoadError::FileNotFound
                &&& (e == LoadError::BadHeader <==> !elf_header_ok(data@))
                &&& (e == LoadError::BadSegment <==> elf_header_ok(data@) && !elf_segments_ok(
                    data@,
                ))
                &&& (e == LoadError::OutOfMemory || e == LoadError::MapFailed || e
                    == LoadError::NoStackFrames || e == LoadError::StackMapFailed
                    ==> forall|fi: int|
                        0 <= fi < final(mm).allocator().total()
                            ==> #[trigger] final(mm).allocator().bits()[fi])
            },
        },
{
    let img = match parse_elf(data) {
        Ok(img) => img,
        Err(e) => {
            return Err(e);
        },
    };
    let nseg = img.segments.len();
    for si in 0..nseg
        invariant
            mm.wf(),
            mm.roots_seq() == old(mm).roots_seq(),
            mm.root() == old(mm).root(),
            mm.offset() == old(mm).offset(),
            nseg == img.segments@.len(),
            nseg == elf_phnum(data@),
            elf_header_ok(data@),
            elf_segments_ok(data@),
            forall|i: int|
                0 <= i < img.segments@.len() ==> {
                    let s = #[trigger] img.segments@[i];
                    &&& s.seg_type as int == seg_type_of(data@, i)
                    &&& s.offset as int == seg_offset_of(data@, i)
                    &&& s.filesz as int == seg_filesz_of(data@, i)
                    &&& s.memsz as int == seg_memsz_of(data@, i)
                    &&& s.vaddr as int == seg_vaddr_of(data@, i)
                },
            forall|w: u64|
                translate_spec(old(mm).pt(), old(mm).root(), w) is Some
                    ==> #[trigger] translate_spec(mm.pt(), mm.root(), w) == translate_spec(
                    old(mm).pt(),
                    old(mm).root(),
                    w,
                ),
            forall|w: u64|
                translate_spec(old(mm).pt(), old(mm).root(), w) is Some
                    ==> #[trigger] present_leaf_flags(mm.pt(), mm.root(), w) == present_leaf_flags(
                    old(mm).pt(),
                    old(mm).root(),
                    w,
                ),
            forall|w: u64|
                translate_spec(old(mm).pt(), old(mm).root(), w) is None && (
                #[trigger] translate_spec(mm.pt(), mm.root(), w)) is Some ==> (present_leaf_flags(
                    mm.pt(),
                    mm.root(),
                    w,
                ) matches Some(fl) && entry_user(fl) && entry_writable(fl)),
            forall|i: int, q: u64|
                0 <= i < si && #[trigger] seg_page(data@, i, q) ==> translate_spec(
                    mm.pt(),
                    mm.root(),
                    q,
                ) is Some,
            forall|i: int|
                #[trigger] sole_load_segment(data@, i) && si <= i ==> *mm == *old(mm),
            forall|i: int|
                #[trigger] sole_load_segment(data@, i) && i < si && cover_unmapped(
                    old(mm).pt(),
                    old(mm).root(),
                    seg_vaddr_of(data@, i) as u64,
                    seg_memsz_of(data@, i) as u64,
                ) && (seg_vaddr_of(data@, i) + seg_memsz_of(data@, i) <= USER_STACK_TOP - 16 * 4096
                    || seg_vaddr_of(data@, i) >= USER_STACK_TOP) ==> (forall|k: int|
                    0 <= k < seg_filesz_of(data@, i) ==> #[trigger] virt_byte(
                        mm.pt(),
                        mm.ram_map(),
                        mm.root(),
                        (seg_vaddr_of(data@, i) + k) as u64,
                    ) == data@[seg_offset_of(data@, i) + k]) && (forall|k: int|
                    seg_filesz_of(data@, i) <= k < seg_memsz_of(data@, i) ==> #[trigger] virt_byte(
                        mm.pt(),
                        mm.ram_map(),
                        mm.root(),
                        (seg_vaddr_of(data@, i) + k) as u64,
                    ) == 0u8),
    {
        let seg = img.segments[si];
        if seg.seg_type == 1 && seg.vaddr != 0 {
            let ghost sb = *mm;
            match load_segment(mm, data, seg, Ghost(si as int)) {
                Ok(_) => {},
                Err(e) => {
                    proof {
                        assert forall|w: u64|
                            translate_spec(old(mm).pt(), old(mm).root(), w) is Some implies (
                        #[trigger] translate_spec(mm.pt(), mm.root(), w)) == translate_spec(
                            old(mm).pt(),
                            old(mm).root(),
                            w,
                        ) by {
                            assert(translate_spec(sb.pt(), sb.root(), w) == translate_spec(
                                old(mm).pt(),
                                old(mm).root(),
                                w,
                            ));
                        }
                        assert forall|w: u64|
                            translate_spec(old(mm).pt(), old(mm).root(), w) is None && (
                        #[trigger] translate_spec(mm.pt(), mm.root(), w)) is Some implies (
                        present_leaf_flags(mm.pt(), mm.root(), w) matches Some(fl) && entry_user(
                            fl,
                        ) && entry_writable(fl)) by {
                            if translate_spec(sb.pt(), sb.root(), w) is Some {
                                assert(present_leaf_flags(sb.pt(), sb.root(), w) matches Some(fl)
                                    && entry_user(fl) && entry_writable(fl));
                                assert(present_leaf_flags(mm.pt(), mm.root(), w)
                                    == present_leaf_flags(sb.pt(), sb.root(), w));
                            }
                        }
                    }
                    return Err(e);
                },
            }
            proof {
                assert forall|w: u64|
                    translate_spec(old(mm).pt(), old(mm).root(), w) is Some implies (
                #[trigger] present_leaf_flags(mm.pt(), mm.root(), w)) == present_leaf_flags(
                    old(mm).pt(),
                    old(mm).root(),
                    w,
                ) by {
                    assert(translate_spec(sb.pt(), sb.root(), w) is Some);
                    assert(present_leaf_flags(mm.pt(), mm.root(), w) == present_leaf_flags(
                        sb.pt(),
                        sb.root(),
                        w,
                    ));
                }
                assert forall|w: u64|
                    translate_spec(old(mm).pt(), old(mm).root(), w) is None && (
                #[trigger] translate_spec(mm.pt(), mm.root(), w)) is Some implies (
                present_leaf_flags(mm.pt(), mm.root(), w) matches Some(fl) && entry_user(fl)
                    && entry_writable(fl)) by {
                    if translate_spec(sb.pt(), sb.root(), w) is Some {
                        assert(present_leaf_flags(sb.pt(), sb.root(), w) matches Some(fl)
                            && entry_user(fl) && entry_writable(fl));
                        assert(present_leaf_flags(mm.pt(), mm.root(), w) == present_leaf_flags(
                            sb.pt(),
                            sb.root(),
                            w,
                        ));
                    }
                }
                assert forall|i: int, q: u64|
                    0 <= i < si + 1 && #[trigger] seg_page(data@, i, q) implies translate_spec(
                    mm.pt(),
                    mm.root(),
                    q,
                ) is Some by {
                    if i < si {
                        assert(translate_spec(sb.pt(), sb.root(), q) is Some);
                    }
                }
                assert forall|i: int|
                    #[trigger] sole_load_segment(data@, i) && si + 1 <= i implies *mm == *old(
                    mm,
                ) by {
                    assert(!((seg_type_of(data@, si as int)) == 1 && seg_vaddr_of(
                        data@,
                        si as int,
                    ) != 0));
                    assert(false);
                }
                assert forall|i: int|
                    #[trigger] sole_load_segment(data@, i) && i < si + 1 && cover_unmapped(
                        old(mm).pt(),
                        old(mm).root(),
                        seg_vaddr_of(data@, i) as u64,
                        seg_memsz_of(data@, i) as u64,
                    ) && (seg_vaddr_of(data@, i) + seg_memsz_of(data@, i) <= USER_STACK_TOP - 16
                        * 4096 || seg_vaddr_of(data@, i) >= USER_STACK_TOP) implies (forall|
                    k: int,
                |
                    0 <= k < seg_filesz_of(data@, i) ==> #[trigger] virt_byte(
                        mm.pt(),
                        mm.ram_map(),
                        mm.root(),
                        (seg_vaddr_of(data@, i) + k) as u64,
                    ) == data@[seg_offset_of(data@, i) + k]) && (forall|k: int|
                    seg_filesz_of(data@, i) <= k < seg_memsz_of(data@, i) ==> #[trigger] virt_byte(
                        mm.pt(),
                        mm.ram_map(),
                        mm.root(),
                        (seg_vaddr_of(data@, i) + k) as u64,
                    ) == 0u8) by {
                    if i == si as int {
                        assert(sb == *old(mm));
                        assert(cover_unmapped(sb.pt(), sb.root(), seg.vaddr, seg.memsz));
                    } else {
                        assert(!((seg_type_of(data@, i)) == 1 && seg_vaddr_of(data@, i) != 0));
                        assert(false);
                    }
                }
            }
        } else {
            proof {
                assert forall|i: int, q: u64|
                    0 <= i < si + 1 && #[trigger] seg_page(data@, i, q) implies translate_spec(
                    mm.pt(),
                    mm.root(),
                    q,
                ) is Some by {
                    if i == si {
                        assert(!(seg_type_of(data@, i) == 1 && seg_vaddr_of(data@, i) != 0
                            && seg_memsz_of(data@, i) > 0));
                    }
                }
            }
        }
    }
    // the fixed user stack, 16 pages ending at the fixed top
    let stack_bottom = USER_STACK_TOP - USER_STACK_PAGES * 4096;
    let mut j: u64 = 0;
    while j < USER_STACK_PAGES
        invariant
            mm.wf(),
            mm.roots_seq() == old(mm).roots_seq(),
            mm.root() == old(mm).root(),
            mm.offset() == old(mm).offset(),
            elf_header_ok(data@),
            elf_segments_ok(data@),
            j <= 16,
            stack_bottom == USER_STACK_TOP - 16 * 4096,
            forall|w: u64|
                translate_spec(old(mm).pt(), old(mm).root(), w) is Some
                    ==> #[trigger] translate_spec(mm.pt(), mm.root(), w) == translate_spec(
                    old(mm).pt(),
                    old(mm).root(),
                    w,
                ),
            forall|w: u64|
                translate_spec(old(mm).pt(), old(mm).root(), w) is None && (
                #[trigger] translate_spec(mm.pt(), mm.root(), w)) is Some ==> (present_leaf_flags(
                    mm.pt(),
                    mm.root(),
                    w,
                ) matches Some(fl) && entry_user(fl) && entry_writable(fl)),
            forall|i: int, q: u64|
                #[trigger] seg_page(data@, i, q) ==> translate_spec(mm.pt(), mm.root(), q) is Some,
            forall|i: int|
                #[trigger] sole_load_segment(data@, i) && cover_unmapped(
                    old(mm).pt(),
                    old(mm).root(),
                    seg_vaddr_of(data@, i) as u64,
                    seg_memsz_of(data@, i) as u64,
                ) && (seg_vaddr_of(data@, i) + seg_memsz_of(data@, i) <= USER_STACK_TOP - 16 * 4096
                    || seg_vaddr_of(data@, i) >= USER_STACK_TOP) ==> (forall|k: int|
                    0 <= k < seg_filesz_of(data@, i) ==> #[trigger] virt_byte(
                        mm.pt(),
                        mm.ram_map(),
                        mm.root(),
                        (seg_vaddr_of(data@, i) + k) as u64,
                    ) == data@[seg_offset_of(data@, i) + k]) && (forall|k: int|
                    seg_filesz_of(data@, i) <= k < seg_memsz_of(data@, i) ==> #[trigger] virt_byte(
                        mm.pt(),
                        mm.ram_map(),
                        mm.root(),
                        (seg_vaddr_of(data@, i) + k) as u64,
                    ) == 0u8),
            forall|jj: int|
                0 <= jj < j ==> (#[trigger] translate_spec(
                    mm.pt(),
                    mm.root(),
                    (stack_bottom + jj * 4096) as u64,
                )) is Some,
        decreases USER_STACK_PAGES - j,
    {
        let page = stack_bottom + j * 4096;
        proof {
            assert((PAGE_PRESENT | PAGE_WRITABLE | PAGE_USER) == 7u64) by (bit_vector);
            assert(7u64 & 0xFFF == 7u64 && 7u64 & 1 == 1u64 && 7u64 & 2 == 2u64 && 7u64 & 4
                == 4u64) by (bit_vector);
            assert(page % 4096 == 0 && page < 0x1_0000_0000_0000) by (bit_vector)
                requires
                    page == 0x0000_7FFF_FFFF_0000u64 - 16 * 4096 + j * 4096,
                    j < 16,
            ;
        }
        let ghost sp = *mm;
        match mm.translate(page) {
            Some(_) => {
                proof {
                    assert forall|jj: int|
                        0 <= jj < j + 1 implies (#[trigger] translate_spec(
                        mm.pt(),
                        mm.root(),
                        (stack_bottom + jj * 4096) as u64,
                    )) is Some by {}
                }
            },
            None => {
                let frame = match mm.alloc_frame() {
                    Some(f) => f,
                    None => {
                        return Err(LoadError::NoStackFrames);
                    },
                };
                let ghost sa = *mm;
                proof {
                    lemma_index_bounds(frame);
                    assert(page_base(frame) & ENTRY_ADDR_MASK == page_base(frame)) by (bit_vector)
                        requires
                            frame < 0x10_0000_0000_0000,
                    ;
                    lemma_make_entry(page_base(frame), 7u64);
                }
                match mm.map_page(page, frame, PAGE_PRESENT | PAGE_WRITABLE | PAGE_USER) {
                    Ok(_) => {},
                    Err(e) => {
                        proof {
                            if e == crate::vmm::MemError::AlreadyMapped {
                                assert(translate_spec(sa.pt(), sa.root(), page) is Some);
                                assert(false);
                            }
                        }
                        return Err(LoadError::StackMapFailed);
                    },
                }
                proof {
                    assert forall|w: u64|
                        translate_spec(old(mm).pt(), old(mm).root(), w) is Some implies (
                    #[trigger] translate_spec(mm.pt(), mm.root(), w)) == translate_spec(
                        old(mm).pt(),
                        old(mm).root(),
                        w,
                    ) by {
                        if same_page(w, page) {
                            lemma_same_page_same_walk(sa.pt(), sa.root(), w, page);
                            assert(false);
                        }
                    }
                    assert forall|w: u64|
                        translate_spec(old(mm).pt(), old(mm).root(), w) is None && (
                    #[trigger] translate_spec(mm.pt(), mm.root(), w)) is Some implies (
                    present_leaf_flags(mm.pt(), mm.root(), w) matches Some(fl) && entry_user(fl)
                        && entry_writable(fl)) by {
                        if same_page(w, page) {
                            assert(l1e(mm.pt(), mm.root(), w) == Some(page_base(frame) | 7u64));
                            assert(present_leaf_flags(mm.pt(), mm.root(), w) == Some(7u64));
                        } else {
                            if translate_spec(sa.pt(), sa.root(), w) is Some {
                                assert(present_leaf_flags(sa.pt(), sa.root(), w) matches Some(fl)
                                    && entry_user(fl) && entry_writable(fl));
                            }
                        }
                    }
                    assert forall|i: int, q: u64| #[trigger]
                        seg_page(data@, i, q) implies translate_spec(mm.pt(), mm.root(), q)
                        is Some by {
                        if same_page(q, page) {
                            lemma_same_page_same_walk(mm.pt(), mm.root(), q, page);
                        } else {
                            assert(translate_spec(sa.pt(), sa.root(), q) is Some);
                        }
                    }
                    assert forall|i: int|
                        #[trigger] sole_load_segment(data@, i) && cover_unmapped(
                            old(mm).pt(),
                            old(mm).root(),
                            seg_vaddr_of(data@, i) as u64,
                            seg_memsz_of(data@, i) as u64,
                        ) && (seg_vaddr_of(data@, i) + seg_memsz_of(data@, i) <= USER_STACK_TOP
                            - 16 * 4096 || seg_vaddr_of(data@, i) >= USER_STACK_TOP) implies (
                    forall|k: int|
                        0 <= k < seg_filesz_of(data@, i) ==> #[trigger] virt_byte(
                            mm.pt(),
                            mm.ram_map(),
                            mm.root(),
                            (seg_vaddr_of(data@, i) + k) as u64,
                        ) == data@[seg_offset_of(data@, i) + k]) && (forall|k: int|
                        seg_filesz_of(data@, i) <= k < seg_memsz_of(data@, i)
                            ==> #[trigger] virt_byte(
                            mm.pt(),
                            mm.ram_map(),
                            mm.root(),
                            (seg_vaddr_of(data@, i) + k) as u64,
                        ) == 0u8) by {
                        let va = seg_vaddr_of(data@, i);
                        let ms = seg_memsz_of(data@, i);
                        assert(elf_segment_ok(data@, i));
                        assert(seg_filesz_of(data@, i) <= ms);
                        assert forall|k: int|
                            0 <= k < seg_filesz_of(data@, i) implies #[trigger] virt_byte(
                            mm.pt(),
                            mm.ram_map(),
                            mm.root(),
                            (va + k) as u64,
                        ) == data@[seg_offset_of(data@, i) + k] by {
                            let u = (va + k) as u64;
                            lemma_index_bounds(u);
                            let qu = page_base(u);
                            lemma_index_bounds(qu);
                            lemma_page_base_monotonic(va as u64, u);
                            lemma_page_base_monotonic(u, (va + ms - 1) as u64);
                            if va + ms <= USER_STACK_TOP - 16 * 4096 {
                                assert(qu < page);
                            } else {
                                lemma_page_base_monotonic(USER_STACK_TOP, va as u64);
                                assert(page_base(USER_STACK_TOP) == USER_STACK_TOP)
                                    by (bit_vector);
                                assert(qu > page);
                            }
                            assert(qu < 0x1_0000_0000_0000);
                            lemma_low_pages_distinct(qu, page);
                            lemma_page_base_same_indices(u, u);
                            assert(!same_page(u, page));
                            assert(translate_spec(mm.pt(), mm.root(), u) == translate_spec(
                                sa.pt(),
                                sa.root(),
                                u,
                            ));
                            assert(sa.pt() == sp.pt() && sa.ram_map() == sp.ram_map()
                                && sa.root() == sp.root());
                            assert(virt_byte(sp.pt(), sp.ram_map(), sp.root(), u) == data@[
                                seg_offset_of(data@, i) + k]);
                        }
                        assert forall|k: int|
                            seg_filesz_of(data@, i) <= k < ms implies #[trigger] virt_byte(
                            mm.pt(),
                            mm.ram_map(),
                            mm.root(),
                            (va + k) as u64,
                        ) == 0u8 by {
                            let u = (va + k) as u64;
                            lemma_index_bounds(u);
                            let qu = page_base(u);
                            lemma_index_bounds(qu);
                            lemma_page_base_monotonic(va as u64, u);
                            lemma_page_base_monotonic(u, (va + ms - 1) as u64);
                            if va + ms <= USER_STACK_TOP - 16 * 4096 {
                                assert(qu < page);
                            } else {
                                lemma_page_base_monotonic(USER_STACK_TOP, va as u64);
                                assert(page_base(USER_STACK_TOP) == USER_STACK_TOP)
                                    by (bit_vector);
                                assert(qu > page);
                            }
                            assert(qu < 0x1_0000_0000_0000);
                            lemma_low_pages_distinct(qu, page);
                            lemma_page_base_same_indices(u, u);
                            assert(!same_page(u, page));
                            assert(translate_spec(mm.pt(), mm.root(), u) == translate_spec(
                                sa.pt(),
                                sa.root(),
                                u,
                            ));
                            assert(sa.pt() == sp.pt() && sa.ram_map() == sp.ram_map()
                                && sa.root() == sp.root());
                            assert(virt_byte(sp.pt(), sp.ram_map(), sp.root(), u) == 0u8);
                        }
                    }
                    assert forall|jj: int|
                        0 <= jj < j + 1 implies (#[trigger] translate_spec(
                        mm.pt(),
                        mm.root(),
                        (stack_bottom + jj * 4096) as u64,
                    )) is Some by {
                        let pj = (stack_bottom + jj * 4096) as u64;
                        if jj == j {
                            assert(pj == page);
                            assert(translate_spec(mm.pt(), mm.root(), pj) is Some);
                        } else {
                            let jju = jj as u64;
                            assert(pj == stack_bottom + jju * 4096);
                            assert(pj % 4096 == 0 && pj < 0x1_0000_0000_0000 && pj != page)
                                by (bit_vector)
                                requires
                                    pj == 0x0000_7FFF_FFFF_0000u64 - 16 * 4096 + jju * 4096,
                                    page == 0x0000_7FFF_FFFF_0000u64 - 16 * 4096 + j * 4096,
                                    jju < 16,
                                    j < 16,
                                    jju != j,
                            ;
                            lemma_low_pages_distinct(pj, page);
                            assert(translate_spec(sa.pt(), sa.root(), pj) is Some);
                        }
                    }
                }
            },
        }
        j = j + 1;
    }
    Ok(LaunchPlan { entry: img.entry, stack_top: USER_STACK_TOP })
}

} // verus!
