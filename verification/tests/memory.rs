use corekernel::pmm::MemRegion;
use corekernel::vmm::{MemoryManager, MemError, KERNEL_STACK_REGION};
use corekernel::paging::{PAGE_PRESENT, PAGE_WRITABLE, PAGE_USER};

fn boot_mm() -> MemoryManager {
    let regions = vec![MemRegion { start: 0, end: 0x400000, usable: true }];
    MemoryManager::init(&regions, 0xFFFF_8000_0000_0000).unwrap()
}

#[test]
fn null_page_translates_to_nothing_after_boot() {
    let mut mm = boot_mm();
    assert_eq!(mm.translate(0), None);
    assert!(mm.unmap_null_page().is_ok());
    assert_eq!(mm.translate(0), None);
}

#[test]
fn mapping_round_trip() {
    let mut mm = boot_mm();
    let frame = mm.alloc_frame().unwrap();
    let v: u64 = 0x40_0000;
    mm.map_page(v, frame, PAGE_PRESENT | PAGE_WRITABLE | PAGE_USER).unwrap();
    assert_eq!(mm.translate(v), Some(frame));
    assert_eq!(mm.translate(v + 0x123), Some(frame + 0x123));
    // the permission checks reflect exactly the requested flags
    assert!(mm.is_user_readable(v, 4096));
    assert!(mm.is_user_writable(v, 4096));
    // an unrelated page stays unmapped
    assert_eq!(mm.translate(0x80_0000), None);
}

#[test]
fn read_only_user_mapping_rejects_writes() {
    let mut mm = boot_mm();
    let frame = mm.alloc_frame().unwrap();
    let v: u64 = 0x40_0000;
    mm.map_page(v, frame, PAGE_PRESENT | PAGE_USER).unwrap();
    assert!(mm.is_user_readable(v, 8));
    assert!(!mm.is_user_writable(v, 8));
}

#[test]
fn kernel_only_mapping_is_not_user_accessible() {
    let mut mm = boot_mm();
    let frame = mm.alloc_frame().unwrap();
    let v: u64 = 0x40_0000;
    mm.map_page(v, frame, PAGE_PRESENT | PAGE_WRITABLE).unwrap();
    assert_eq!(mm.translate(v), Some(frame));
    assert!(!mm.is_user_readable(v, 8));
    assert!(!mm.is_user_writable(v, 8));
}

#[test]
fn double_map_is_an_error() {
    let mut mm = boot_mm();
    let f1 = mm.alloc_frame().unwrap();
    let f2 = mm.alloc_frame().unwrap();
    let v: u64 = 0x40_0000;
    mm.map_page(v, f1, PAGE_PRESENT | PAGE_WRITABLE | PAGE_USER).unwrap();
    assert_eq!(mm.map_page(v, f2, PAGE_PRESENT | PAGE_WRITABLE | PAGE_USER), Err(MemError::AlreadyMapped));
    // the original mapping is untouched
    assert_eq!(mm.translate(v), Some(f1));
}

#[test]
fn unmap_clears_translation() {
    let mut mm = boot_mm();
    let frame = mm.alloc_frame().unwrap();
    let v: u64 = 0x40_0000;
    mm.map_page(v, frame, PAGE_PRESENT | PAGE_WRITABLE | PAGE_USER).unwrap();
    assert_eq!(mm.unmap_page(v), Ok(frame));
    assert_eq!(mm.translate(v), None);
    assert!(!mm.is_user_readable(v, 1));
    assert_eq!(mm.unmap_page(v), Err(MemError::NotMapped));
    assert_eq!(mm.unmap_page(0x123456000), Err(MemError::NotMapped));
}

#[test]
fn set_page_flags_rewrites_only_flags() {
    let mut mm = boot_mm();
    let frame = mm.alloc_frame().unwrap();
    let v: u64 = 0x40_0000;
    mm.map_page(v, frame, PAGE_PRESENT | PAGE_WRITABLE | PAGE_USER).unwrap();
    assert!(mm.is_user_writable(v, 1));
    mm.set_page_flags(v, PAGE_PRESENT | PAGE_USER).unwrap();
    assert_eq!(mm.translate(v), Some(frame));
    assert!(mm.is_user_readable(v, 1));
    assert!(!mm.is_user_writable(v, 1));
    assert_eq!(mm.set_page_flags(0x999000, PAGE_PRESENT), Err(MemError::NotMapped));
}

#[test]
fn user_check_rejects_kernel_half_and_overflow() {
    let mut mm = boot_mm();
    assert!(!mm.is_user_readable(0x0000_8000_0000_0000, 1));
    assert!(!mm.is_user_readable(0xFFFF_F000_0000_0000, 8));
    assert!(!mm.is_user_readable(0x7FFF_FFFF_FFFF, u64::MAX));
    let frame = mm.alloc_frame().unwrap();
    mm.map_page(0x7FFF_FFFF_E000, frame, PAGE_PRESENT | PAGE_WRITABLE | PAGE_USER).unwrap();
    // the range must lie below the canonical split in full
    assert!(mm.is_user_readable(0x7FFF_FFFF_E000, 4096));
    assert!(!mm.is_user_readable(0x7FFF_FFFF_E000, 0x2000));
}

#[test]
fn guard_paged_stack() {
    let mut mm = boot_mm();
    let guard = KERNEL_STACK_REGION;
    let top = mm.allocate_kernel_stack_with_guard(4).unwrap();
    assert_eq!(top, guard + 5 * 4096);
    // the page below the stack's floor is unmapped
    assert_eq!(mm.translate(guard), None);
    // all four stack pages are mapped
    for k in 1..=4u64 {
        assert!(mm.translate(guard + k * 4096).is_some());
    }
    // stacks are kernel-only, never user-accessible
    assert!(!mm.is_user_readable(guard + 4096, 8));
    // a second stack starts past the first, with its own guard
    let top2 = mm.allocate_kernel_stack_with_guard(2).unwrap();
    assert_eq!(top2, top + 3 * 4096);
    assert_eq!(mm.translate(top), None);
    assert_eq!(mm.allocate_kernel_stack_with_guard(0), Err(MemError::InvalidSize));
}

#[test]
fn address_spaces_share_the_kernel_half() {
    let mut mm = boot_mm();
    let kframe = mm.alloc_frame().unwrap();
    let uframe = mm.alloc_frame().unwrap();
    let kpage: u64 = 0xFFFF_C000_0000_0000;
    let upage: u64 = 0x40_0000;
    mm.map_page(kpage, kframe, PAGE_PRESENT | PAGE_WRITABLE).unwrap();
    mm.map_page(upage, uframe, PAGE_PRESENT | PAGE_WRITABLE | PAGE_USER).unwrap();
    let new_root = mm.create_address_space().unwrap();
    mm.switch_address_space(new_root);
    // kernel mappings stay visible, the user half starts empty
    assert_eq!(mm.translate(kpage), Some(kframe));
    assert_eq!(mm.translate(upage), None);
}

#[test]
fn map_page_in_prepares_an_inactive_space() {
    let mut mm = boot_mm();
    let old_root = {
        let new_root = mm.create_address_space().unwrap();
        let frame = mm.alloc_frame().unwrap();
        mm.map_page_in(new_root, 0x50_0000, frame, PAGE_PRESENT | PAGE_WRITABLE | PAGE_USER)
            .unwrap();
        // not visible in the active space
        assert_eq!(mm.translate(0x50_0000), None);
        mm.switch_address_space(new_root);
        assert_eq!(mm.translate(0x50_0000), Some(frame));
        new_root
    };
    let _ = old_root;
}

#[test]
fn virtual_bytes_read_back_what_was_written() {
    let mut mm = boot_mm();
    let frame = mm.alloc_frame().unwrap();
    let v: u64 = 0x40_0000;
    mm.map_page(v, frame, PAGE_PRESENT | PAGE_WRITABLE | PAGE_USER).unwrap();
    // an untouched mapped byte reads as zero
    assert_eq!(mm.read_virt_byte(v), Some(0));
    mm.write_virt_byte(v + 5, 0xAB).unwrap();
    assert_eq!(mm.read_virt_byte(v + 5), Some(0xAB));
    assert_eq!(mm.read_virt_byte(v + 6), Some(0));
    // unmapped addresses fail
    assert_eq!(mm.read_virt_byte(0x80_0000), None);
    assert_eq!(mm.write_virt_byte(0x80_0000, 1), Err(MemError::NotMapped));
}
