use corekernel::pmm::MemRegion;
use corekernel::vmm::MemoryManager;
use corekernel::paging::{PAGE_PRESENT, PAGE_WRITABLE, PAGE_USER};
use corekernel::syscall::{SyscallLayer, SyscallState, SYSCALL_PRINT, MAX_PRINT_LENGTH};

const MSG: &[u8] = b"Hello from a real ELF file!\n";

fn running_layer() -> SyscallLayer {
    let mut sys = SyscallLayer::new();
    let config = sys.init_syscall(0xFFFF_9000_0000_0000, 0xFFFF_F000_0000_5000);
    assert_eq!(config.entry_target, 0xFFFF_9000_0000_0000);
    assert_eq!(config.flag_mask, 0x300);
    assert_eq!(config.kernel_stack_top, 0xFFFF_F000_0000_5000);
    let frame = sys.enter_userspace(0x40_1000, 0x7FFF_FFFF_0000);
    assert_eq!(frame.rip, 0x40_1000);
    assert_eq!(frame.rsp, 0x7FFF_FFFF_0000);
    assert_eq!(frame.rflags, 0x202);
    sys
}

fn mm_with_message() -> (MemoryManager, u64) {
    let regions = vec![MemRegion { start: 0, end: 0x400000, usable: true }];
    let mut mm = MemoryManager::init(&regions, 0xFFFF_8000_0000_0000).unwrap();
    let frame = mm.alloc_frame().unwrap();
    let ptr: u64 = 0x40_0000;
    mm.map_page(ptr, frame, PAGE_PRESENT | PAGE_WRITABLE | PAGE_USER).unwrap();
    for (i, b) in MSG.iter().enumerate() {
        mm.write_virt_byte(ptr + i as u64, *b).unwrap();
    }
    (mm, ptr)
}

#[test]
fn print_forwards_exactly_the_text() {
    let (mm, ptr) = mm_with_message();
    let mut sys = running_layer();
    let r = sys.handle_syscall(&mm, SYSCALL_PRINT, ptr, MSG.len() as u64, 0, 0, 0, 0);
    assert_eq!(r, 0);
    assert_eq!(sys.console_contents().as_slice(), MSG);
}

#[test]
fn print_of_an_unmapped_page_fails_and_prints_nothing() {
    let (mm, ptr) = mm_with_message();
    let mut sys = running_layer();
    // one page higher: unmapped
    let r = sys.handle_syscall(&mm, SYSCALL_PRINT, ptr + 4096, MSG.len() as u64, 0, 0, 0, 0);
    assert_eq!(r, 1);
    assert!(sys.console_contents().is_empty());
}

#[test]
fn unknown_syscall_returns_the_sentinel() {
    let (mm, ptr) = mm_with_message();
    let mut sys = running_layer();
    let r = sys.handle_syscall(&mm, 2, ptr, MSG.len() as u64, 0, 0, 0, 0);
    assert_eq!(r, u64::MAX);
    assert!(sys.console_contents().is_empty());
}

#[test]
fn print_rejects_null_and_oversized_buffers() {
    let (mm, _ptr) = mm_with_message();
    let mut sys = running_layer();
    assert_eq!(sys.handle_syscall(&mm, SYSCALL_PRINT, 0, 10, 0, 0, 0, 0), 1);
    let long = MAX_PRINT_LENGTH + 1;
    assert_eq!(sys.handle_syscall(&mm, SYSCALL_PRINT, 0x40_0000, long, 0, 0, 0, 0), 1);
    assert!(sys.console_contents().is_empty());
}

#[test]
fn print_rejects_kernel_pointers() {
    let (mm, _ptr) = mm_with_message();
    let mut sys = running_layer();
    assert_eq!(sys.handle_syscall(&mm, SYSCALL_PRINT, 0xFFFF_F000_0000_0000, 8, 0, 0, 0, 0), 1);
    assert_eq!(sys.handle_syscall(&mm, SYSCALL_PRINT, 0x0000_8000_0000_0000, 8, 0, 0, 0, 0), 1);
    assert!(sys.console_contents().is_empty());
}

#[test]
fn print_rejects_invalid_text_encoding() {
    let (mut mm, ptr) = mm_with_message();
    mm.write_virt_byte(ptr, 0xFF).unwrap();
    mm.write_virt_byte(ptr + 1, 0xFE).unwrap();
    let mut sys = running_layer();
    let r = sys.handle_syscall(&mm, SYSCALL_PRINT, ptr, 4, 0, 0, 0, 0);
    assert_eq!(r, 1);
    assert!(sys.console_contents().is_empty());
}

#[test]
fn print_appends_across_calls() {
    let (mm, ptr) = mm_with_message();
    let mut sys = running_layer();
    assert_eq!(sys.handle_syscall(&mm, SYSCALL_PRINT, ptr, 5, 0, 0, 0, 0), 0);
    assert_eq!(sys.handle_syscall(&mm, SYSCALL_PRINT, ptr + 6, 4, 0, 0, 0, 0), 0);
    assert_eq!(sys.console_contents().as_slice(), b"Hellofrom");
}

#[test]
fn built_in_demo_program_prints_its_greeting() {
    let regions = vec![MemRegion { start: 0, end: 0x400000, usable: true }];
    let mut mm = MemoryManager::init(&regions, 0xFFFF_8000_0000_0000).unwrap();
    let mut sys = SyscallLayer::new();
    let _ = sys.init_syscall(0xFFFF_9000_0000_0000, 0xFFFF_F000_0000_4000);
    let (entry, stack) = sys.test_userspace_syscall(&mut mm).unwrap();
    assert_eq!(entry, 0x40_0000);
    assert_eq!(stack, 0x80_0000);
    // the code page carries the fast-call instruction and the greeting
    assert_eq!(mm.read_virt_byte(entry), Some(0x48));
    let frame = sys.enter_userspace(entry, stack);
    assert_eq!(frame.rip, entry);
    // the demo program's first act: print its greeting
    let r = sys.handle_syscall(&mm, SYSCALL_PRINT, entry + 64, 34, 0, 0, 0, 0);
    assert_eq!(r, 0);
    assert_eq!(sys.console_contents().as_slice(), b"Hello from Ring 3 (Standard ABI)!\n");
}

#[test]
fn layer_walks_its_state_machine() {
    let mut sys = SyscallLayer::new();
    let _ = sys.init_syscall(1, 2);
    let _ = sys.enter_userspace(3, 4);
    let regions = vec![MemRegion { start: 0, end: 0x100000, usable: true }];
    let mm = MemoryManager::init(&regions, 0).unwrap();
    let _ = sys.handle_syscall(&mm, 9, 0, 0, 0, 0, 0, 0);
    sys.fault_in_user();
    let _ = SyscallState::Halted;
}
