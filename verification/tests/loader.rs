use corekernel::pmm::MemRegion;
use corekernel::vmm::MemoryManager;
use corekernel::process::{load_elf, parse_elf, LoadError, USER_STACK_TOP};

fn boot_mm() -> MemoryManager {
    let regions = vec![MemRegion { start: 0, end: 0x800000, usable: true }];
    MemoryManager::init(&regions, 0xFFFF_8000_0000_0000).unwrap()
}

fn put_u16(image: &mut Vec<u8>, off: usize, v: u16) {
    image[off] = (v & 0xFF) as u8;
    image[off + 1] = (v >> 8) as u8;
}

fn put_u32(image: &mut Vec<u8>, off: usize, v: u32) {
    for k in 0..4 {
        image[off + k] = ((v >> (8 * k)) & 0xFF) as u8;
    }
}

fn put_u64(image: &mut Vec<u8>, off: usize, v: u64) {
    for k in 0..8 {
        image[off + k] = ((v >> (8 * k)) & 0xFF) as u8;
    }
}

/// A minimal 64-bit image: one loadable segment with a 100-byte
/// file-backed prefix and a 4096-byte memory size.
fn sample_elf() -> Vec<u8> {
    let mut image = vec![0u8; 220];
    image[0] = 0x7F;
    image[1] = 0x45;
    image[2] = 0x4C;
    image[3] = 0x46;
    image[4] = 2; // 64-bit
    image[5] = 1; // little-endian
    put_u16(&mut image, 18, 0x3E);
    put_u64(&mut image, 24, 0x40_1000); // entry
    put_u64(&mut image, 32, 64); // program header table offset
    put_u16(&mut image, 54, 56); // program header size
    put_u16(&mut image, 56, 1); // one program header
    // the program header
    put_u32(&mut image, 64, 1); // loadable
    put_u64(&mut image, 64 + 8, 120); // file offset
    put_u64(&mut image, 64 + 16, 0x40_0000); // virtual address
    put_u64(&mut image, 64 + 32, 100); // file size
    put_u64(&mut image, 64 + 40, 4096); // memory size
    for i in 0..100 {
        image[120 + i] = i as u8;
    }
    image
}

#[test]
fn parse_accepts_the_sample() {
    let img = parse_elf(&sample_elf()).unwrap();
    assert_eq!(img.entry, 0x40_1000);
    assert_eq!(img.segments.len(), 1);
    assert_eq!(img.segments[0].seg_type, 1);
    assert_eq!(img.segments[0].vaddr, 0x40_0000);
    assert_eq!(img.segments[0].filesz, 100);
    assert_eq!(img.segments[0].memsz, 4096);
}

#[test]
fn parse_rejects_bad_magic() {
    let mut image = sample_elf();
    image[0] = 0x7E;
    assert_eq!(parse_elf(&image).err(), Some(LoadError::BadHeader));
}

#[test]
fn parse_rejects_short_image() {
    let image = vec![0x7Fu8, 0x45, 0x4C, 0x46];
    assert_eq!(parse_elf(&image).err(), Some(LoadError::BadHeader));
}

#[test]
fn parse_rejects_wrong_class_or_machine() {
    let mut image = sample_elf();
    image[4] = 1;
    assert_eq!(parse_elf(&image).err(), Some(LoadError::BadHeader));
    let mut image = sample_elf();
    put_u16(&mut image, 18, 0x28);
    assert_eq!(parse_elf(&image).err(), Some(LoadError::BadHeader));
}

#[test]
fn parse_rejects_file_size_past_image_end() {
    let mut image = sample_elf();
    put_u64(&mut image, 64 + 32, 4096); // file size beyond the 220 bytes
    assert_eq!(parse_elf(&image).err(), Some(LoadError::BadSegment));
}

#[test]
fn parse_rejects_file_size_above_memory_size() {
    let mut image = sample_elf();
    put_u64(&mut image, 64 + 40, 50); // memory size below the file size
    assert_eq!(parse_elf(&image).err(), Some(LoadError::BadSegment));
}

#[test]
fn loaded_segment_is_copied_and_zero_filled() {
    let mut mm = boot_mm();
    let plan = load_elf(&mut mm, &sample_elf()).unwrap();
    assert_eq!(plan.entry, 0x40_1000);
    assert_eq!(plan.stack_top, USER_STACK_TOP);
    // the file-backed prefix holds the file contents
    for i in 0..100u64 {
        assert_eq!(mm.read_virt_byte(0x40_0000 + i), Some(i as u8));
    }
    // the remainder of the declared memory size is zero
    for i in (100..4096u64).step_by(97) {
        assert_eq!(mm.read_virt_byte(0x40_0000 + i), Some(0));
    }
    assert_eq!(mm.read_virt_byte(0x40_0000 + 4095), Some(0));
    // the loaded page is user-accessible and writable
    assert!(mm.is_user_readable(0x40_0000, 4096));
    assert!(mm.is_user_writable(0x40_0000, 4096));
}

#[test]
fn loader_maps_the_fixed_user_stack() {
    let mut mm = boot_mm();
    let plan = load_elf(&mut mm, &sample_elf()).unwrap();
    for k in 1..=16u64 {
        assert!(mm.translate(plan.stack_top - k * 4096).is_some());
    }
    assert!(mm.is_user_writable(plan.stack_top - 16 * 4096, 16 * 4096));
    // the loader leaves the kernel in control on failure paths
    let mut bad = sample_elf();
    bad[0] = 0;
    assert!(load_elf(&mut mm, &bad).is_err());
}

#[test]
fn loader_fails_cleanly_when_memory_runs_out() {
    // four frames: the bitmap eats one, the root table another; the
    // loader cannot build its tables and segments
    let regions = vec![MemRegion { start: 0, end: 4 * 4096, usable: true }];
    let mut mm = MemoryManager::init(&regions, 0).unwrap();
    let r = load_elf(&mut mm, &sample_elf());
    assert!(matches!(
        r,
        Err(LoadError::OutOfMemory) | Err(LoadError::MapFailed) | Err(LoadError::NoStackFrames)
            | Err(LoadError::StackMapFailed)
    ));
    // exhaustion: nothing is left to hand out
    let (used, total) = mm.stats();
    assert_eq!(used, total);
}

#[test]
fn segment_at_address_zero_is_skipped() {
    let mut mm = boot_mm();
    let mut image = sample_elf();
    put_u64(&mut image, 64 + 16, 0); // placeholder segment at address zero
    let plan = load_elf(&mut mm, &image).unwrap();
    assert_eq!(plan.entry, 0x40_1000);
    assert_eq!(mm.translate(0), None);
}
