//! Privilege transition and system-call layer: the arming of the fast
//! system-call machinery, the one-shot transition into user mode, and the
//! dispatcher that validates and serves calls trapping back in.
//!
//! No call may touch a user pointer before the read-permission check over
//! the exact range succeeds — that ordering is the load-bearing security
//! invariant of this layer.

use vstd::prelude::*;
use crate::vmm::{MemoryManager, MemError, virt_byte, lemma_user_range_translate};
use crate::paging::{
    user_range_readable, translate_spec, present_leaf_flags, entry_user, entry_writable,
    page_base, page_offset, same_page, lemma_index_bounds, lemma_make_entry,
    lemma_page_base_same_indices, lemma_same_page_same_walk, lemma_low_pages_distinct,
    ENTRY_ADDR_MASK,
};

verus! {

/// System-call id of "print a user buffer".
pub const SYSCALL_PRINT: u64 = 1;

/// Longest buffer one print call accepts, bounding validation cost.
pub const MAX_PRINT_LENGTH: u64 = 0x40_0000;

/// Flags-register bit: interrupts enabled.
pub const RFLAGS_IF: u64 = 0x200;

/// Flags-register bit: single-step trap.
pub const RFLAGS_TF: u64 = 0x100;

/// Flags-register bit that is always set.
pub const RFLAGS_RESERVED: u64 = 0x2;

/// Per-core scratch record the fast-entry trampoline reaches through its
/// base-pointer register, because the hardware does not switch stacks.
pub struct KernelScratch {
    /// Stack the trampoline switches to on entry.
    pub kernel_stack_top: u64,
    /// Where the user stack pointer is parked during a call.
    pub user_stack_scratch: u64,
}

/// Lifetime of one program, as the layer sees it.
#[derive(Clone, Copy, PartialEq, Eq, Structural, Debug)]
pub enum SyscallState {
    /// Fast-entry machinery not programmed yet.
    Unconfigured,
    /// Registers and kernel stack are set up; no user code has run.
    Armed,
    /// User code is (or is about to be) executing.
    UserRunning,
    /// A trapped call is being serviced.
    InSyscall,
    /// A fatal fault in user mode parked the processor.
    Halted,
}

/// What the arming step programs into the hardware: the trampoline
/// target, the flag bits cleared on entry, and the dedicated stack.
#[derive(Clone, Copy, PartialEq, Eq, Structural, Debug)]
pub struct SyscallConfig {
    /// Address the fast-entry instruction jumps to.
    pub entry_target: u64,
    /// Flag bits cleared automatically on entry: interrupts and
    /// single-stepping stay off inside the handler.
    pub flag_mask: u64,
    /// Top of the dedicated kernel-only stack.
    pub kernel_stack_top: u64,
}

/// The synthetic interrupt-return frame that performs the ring
/// transition into user code.
#[derive(Clone, Copy, PartialEq, Eq, Structural, Debug)]
pub struct IretFrame {
    /// User-mode instruction pointer.
    pub rip: u64,
    /// User-mode stack pointer.
    pub rsp: u64,
    /// User-mode flags: interrupts on, reserved bit set.
    pub rflags: u64,
}

/// True iff a print request passes every safeguard, in order: non-null
/// pointer, bounded length, and a user-readable range.
pub open spec fn print_accepted(
    m: Map<u64, (nat, Seq<u64>)>,
    root: u64,
    ptr: u64,
    len: u64,
) -> bool {
    &&& ptr != 0
    &&& len <= MAX_PRINT_LENGTH
    &&& user_range_readable(m, root, ptr, len)
}

/// The bytes a validated print call reads from user memory.
pub open spec fn printed_bytes(
    m: Map<u64, (nat, Seq<u64>)>,
    ram: Map<u64, Seq<u8>>,
    root: u64,
    ptr: u64,
    len: u64,
) -> Seq<u8> {
    Seq::new(len as nat, |i: int| virt_byte(m, ram, root, (ptr + i) as u64))
}

/// Whether a byte sequence is valid UTF-8 text.
pub uninterp spec fn utf8_valid(bytes: Seq<u8>) -> bool;

/// Relies on core::str::from_utf8: whether bytes decode as UTF-8 depends
/// on the bytes alone, and an empty sequence always does.
#[verifier::external_body]
fn utf8_check(bytes: &Vec<u8>) -> (r: bool)
    ensures
        r == utf8_valid(bytes@),
{
    core::str::from_utf8(bytes.as_slice()).is_ok()
}

/// The greeting the built-in ring-3 demonstration prints.
pub open spec fn demo_greeting() -> Seq<u8> {
    seq![72u8, 101u8, 108u8, 108u8, 111u8, 32u8, 102u8, 114u8, 111u8, 109u8, 32u8, 82u8, 105u8, 110u8, 103u8, 32u8, 51u8, 32u8, 40u8, 83u8, 116u8, 97u8, 110u8, 100u8, 97u8, 114u8, 100u8, 32u8, 65u8, 66u8, 73u8, 41u8, 33u8, 10u8]
}

/// The privilege-transition and system-call layer: its state machine,
/// the per-core scratch record, and the console sink calls print to.
pub struct SyscallLayer {
    state: SyscallState,
    scratch: KernelScratch,
    console: Vec<u8>,
}

impl SyscallLayer {
    /// Where the layer stands in its lifetime.
    pub closed spec fn state(self) -> SyscallState {
        self.state
    }

    /// Everything printed to the console so far.
    pub closed spec fn console_bytes(self) -> Seq<u8> {
        self.console@
    }

    /// The published kernel stack top.
    pub closed spec fn scratch_stack_top(self) -> u64 {
        self.scratch.kernel_stack_top
    }

    /// A fresh, unconfigured layer with an empty console.
    pub fn new() -> (r: SyscallLayer)
        ensures
            r.state() == SyscallState::Unconfigured,
            r.console_bytes() == Seq::<u8>::empty(),
    {
        let r = SyscallLayer {
            state: SyscallState::Unconfigured,
            scratch: KernelScratch { kernel_stack_top: 0, user_stack_scratch: 0 },
            console: Vec::new(),
        };
        proof {
            assert(r.console_bytes() =~= Seq::<u8>::empty());
        }
        r
    }

    /// Arms the fast system-call machinery, once at boot: records the
    /// trampoline as the entry target, masks interrupts and the trap flag
    /// for the handler's duration, and publishes the dedicated kernel
    /// stack through the scratch record.
    pub fn init_syscall(&mut self, dispatcher: u64, kernel_stack_top: u64) -> (r: SyscallConfig)
        requires
            old(self).state() == SyscallState::Unconfigured,
        ensures
            final(self).state() == SyscallState::Armed,
            final(self).console_bytes() == old(self).console_bytes(),
            final(self).scratch_stack_top() == kernel_stack_top,
            r.entry_target == dispatcher,
            r.flag_mask == (RFLAGS_IF | RFLAGS_TF),
            r.kernel_stack_top == kernel_stack_top,
    {
        self.state = SyscallState::Armed;
        self.scratch.kernel_stack_top = kernel_stack_top;
        SyscallConfig {
            entry_target: dispatcher,
            flag_mask: RFLAGS_IF | RFLAGS_TF,
            kernel_stack_top,
        }
    }

    /// The one-shot transition into user mode: builds the synthetic
    /// interrupt-return frame for the given entry point and stack, with
    /// interrupts enabled. The caller that executes the frame never
    /// regains control; this is the terminal step of kernel-side setup.
    pub fn enter_userspace(&mut self, entry_point: u64, stack_pointer: u64) -> (r: IretFrame)
        requires
            old(self).state() == SyscallState::Armed,
        ensures
            final(self).state() == SyscallState::UserRunning,
            final(self).console_bytes() == old(self).console_bytes(),
            final(self).scratch_stack_top() == old(self).scratch_stack_top(),
            r.rip == entry_point,
            r.rsp == stack_pointer,
            r.rflags == (RFLAGS_IF | RFLAGS_RESERVED),
    {
        self.state = SyscallState::UserRunning;
        IretFrame { rip: entry_point, rsp: stack_pointer, rflags: RFLAGS_IF | RFLAGS_RESERVED }
    }

    /// A fault while executing user code: the kernel survives, the
    /// processor is parked.
    pub fn fault_in_user(&mut self)
        requires
            old(self).state() == SyscallState::UserRunning,
        ensures
            final(self).state() == SyscallState::Halted,
            final(self).console_bytes() == old(self).console_bytes(),
    {
        self.state = SyscallState::Halted;
    }

    /// Serves one trapped system call: dispatch is by exact numeric id;
    /// an unrecognized id returns the all-ones sentinel and nothing else
    /// happens.
    pub fn handle_syscall(
        &mut self,
        mm: &MemoryManager,
        syscall_id: u64,
        arg1: u64,
        arg2: u64,
        arg3: u64,
        arg4: u64,
        arg5: u64,
        arg6: u64,
    ) -> (r: u64)
        requires
            old(self).state() == SyscallState::UserRunning,
            mm.wf(),
        ensures
            final(self).state() == SyscallState::UserRunning,
            final(self).scratch_stack_top() == old(self).scratch_stack_top(),
            syscall_id != SYSCALL_PRINT ==> r == u64::MAX && final(self).console_bytes() == old(
                self,
            ).console_bytes(),
            syscall_id == SYSCALL_PRINT ==> {
                let accepted = print_accepted(mm.pt(), mm.root(), arg1, arg2) && utf8_valid(
                    printed_bytes(mm.pt(), mm.ram_map(), mm.root(), arg1, arg2),
                );
                &&& r == if accepted {
                    0u64
                } else {
                    1u64
                }
                &&& final(self).console_bytes() == if accepted {
                    old(self).console_bytes() + printed_bytes(
                        mm.pt(),
                        mm.ram_map(),
                        mm.root(),
                        arg1,
                        arg2,
                    )
                } else {
                    old(self).console_bytes()
                }
            },
    {
        self.state = SyscallState::InSyscall;
        let r = if syscall_id == SYSCALL_PRINT {
            self.syscall_print(mm, arg1, arg2)
        } else {
            u64::MAX
        };
        self.state = SyscallState::UserRunning;
        r
    }

    /// The print call: rejects a null pointer, an oversized length, and
    /// any range user code may not read — in that order, before the
    /// buffer is touched at all — then interprets the bytes as UTF-8 and
    /// forwards them to the console. Returns 0 on success, 1 on any
    /// rejection.
    fn syscall_print(&mut self, mm: &MemoryManager, msg_ptr: u64, len: u64) -> (r: u64)
        requires
            mm.wf(),
        ensures
            final(self).state() == old(self).state(),
            final(self).scratch_stack_top() == old(self).scratch_stack_top(),
            ({
                let accepted = print_accepted(mm.pt(), mm.root(), msg_ptr, len) && utf8_valid(
                    printed_bytes(mm.pt(), mm.ram_map(), mm.root(), msg_ptr, len),
                );
                &&& r == if accepted {
                    0u64
                } else {
                    1u64
                }
                &&& final(self).console_bytes() == if accepted {
                    old(self).console_bytes() + printed_bytes(
                        mm.pt(),
                        mm.ram_map(),
                        mm.root(),
                        msg_ptr,
                        len,
                    )
                } else {
                    old(self).console_bytes()
                }
            }),
    {
        if msg_ptr == 0 {
            return 1;
        }
        if len > MAX_PRINT_LENGTH {
            return 1;
        }
        if !mm.is_user_readable(msg_ptr, len) {
            return 1;
        }
        // the checks passed: only now is the buffer read
        let ghost bytes = printed_bytes(mm.pt(), mm.ram_map(), mm.root(), msg_ptr, len);
        let mut buf: Vec<u8> = Vec::new();
        let mut i: u64 = 0;
        while i < len
            invariant
                mm.wf(),
                i <= len,
                msg_ptr != 0,
                msg_ptr + len <= u64::MAX,
                user_range_readable(mm.pt(), mm.root(), msg_ptr, len),
                bytes == printed_bytes(mm.pt(), mm.ram_map(), mm.root(), msg_ptr, len),
                buf@.len() == i,
                forall|k: int| 0 <= k < i ==> buf@[k] == bytes[k],
            decreases len - i,
        {
            let b = match mm.read_virt_byte(msg_ptr + i) {
                Some(b) => b,
                None => {
                    proof {
                        lemma_user_range_translate(mm.pt(), mm.root(), msg_ptr, len, (msg_ptr + i) as u64);
                        assert(false);
                    }
                    0
                },
            };
            buf.push(b);
            i = i + 1;
        }
        proof {
            assert(buf@ =~= bytes);
        }
        if !utf8_check(&buf) {
            return 1;
        }
        let n = buf.len();
        let ghost pre = self.console@;
        let mut k: usize = 0;
        while k < n
            invariant
                n == buf@.len(),
                k <= n,
                self.console@ == pre + buf@.subrange(0, k as int),
                self.state == old(self).state,
                self.scratch == old(self).scratch,
            decreases n - k,
        {
            let b = buf[k];
            self.console.push(b);
            proof {
                assert(self.console@ =~= pre + buf@.subrange(0, k as int + 1));
            }
            k = k + 1;
        }
        proof {
            assert(buf@.subrange(0, n as int) =~= buf@);
            assert(self.console@ =~= pre + bytes);
        }
        0
    }

    /// Builds and maps the built-in ring-3 demonstration: one page of
    /// hand-assembled user code that issues the print call on a greeting
    /// carried right behind it, and one user stack page. Returns the
    /// entry point and stack pointer to hand to `enter_userspace`.
    pub fn test_userspace_syscall(&mut self, mm: &mut MemoryManager) -> (r: Result<
        (u64, u64),
        crate::vmm::MemError,
    >)
        requires
            old(mm).wf(),
        ensures
            final(mm).wf(),
            final(mm).roots_seq() == old(mm).roots_seq(),
            final(mm).root() == old(mm).root(),
            final(mm).offset() == old(mm).offset(),
            final(self).state() == old(self).state(),
            final(self).console_bytes() == old(self).console_bytes(),
            match r {
                Ok((entry, stack)) => {
                    &&& entry == 0x40_0000u64 && stack == 0x80_0000u64
                    &&& translate_spec(final(mm).pt(), final(mm).root(), entry) is Some
                    &&& translate_spec(final(mm).pt(), final(mm).root(), (stack - 4096) as u64)
                        is Some
                    &&& (present_leaf_flags(final(mm).pt(), final(mm).root(), entry) matches Some(
                        fl,
                    ) && entry_user(fl) && entry_writable(fl))
                    &&& (present_leaf_flags(
                        final(mm).pt(),
                        final(mm).root(),
                        (stack - 4096) as u64,
                    ) matches Some(fl2) && entry_user(fl2) && entry_writable(fl2))
                    &&& forall|j: int|
                        0 <= j < 34 ==> #[trigger] virt_byte(
                            final(mm).pt(),
                            final(mm).ram_map(),
                            final(mm).root(),
                            (entry + 64 + j) as u64,
                        ) == demo_greeting()[j]
                },
                Err(_) => true,
            },
    {
        let user_code_addr: u64 = 0x40_0000;
        let user_stack_addr: u64 = 0x80_0000;
        // the greeting, as bytes
        let msg: [u8; 34] = [72, 101, 108, 108, 111, 32, 102, 114, 111, 109, 32, 82, 105, 110, 103, 32, 51, 32, 40, 83, 116, 97, 110, 100, 97, 114, 100, 32, 65, 66, 73, 41, 33, 10];
        let string_addr: u64 = user_code_addr + 64;

        // load the string pointer and length into the argument registers,
        // the print id into the call register, trap in, then spin
        let mut code: Vec<u8> = Vec::new();
        code.push(0x48);
        code.push(0xBF);
        let mut k: u64 = 0;
        while k < 8
            invariant
                k <= 8,
                code@.len() == 2 + k,
            decreases 8 - k,
        {
            code.push(#[verifier::truncate] ((string_addr >> (8 * k)) as u8));
            k = k + 1;
        }
        code.push(0x48);
        code.push(0xBE);
        let msg_len: u64 = 34;
        let mut k: u64 = 0;
        while k < 8
            invariant
                k <= 8,
                code@.len() == 12 + k,
            decreases 8 - k,
        {
            code.push(#[verifier::truncate] ((msg_len >> (8 * k)) as u8));
            k = k + 1;
        }
        code.push(0x48);
        code.push(0xC7);
        code.push(0xC0);
        code.push(0x01);
        code.push(0x00);
        code.push(0x00);
        code.push(0x00);
        code.push(0x0F);
        code.push(0x05);
        code.push(0xEB);
        code.push(0xFE);
        while code.len() < 64
            invariant
                code@.len() <= 64,
            decreases 64 - code.len(),
        {
            code.push(0x90);
        }
        proof {
            assert(msg@ =~= demo_greeting());
        }
        let mut m: usize = 0;
        while m < 34
            invariant
                m <= 34,
                code@.len() == 64 + m,
                msg@ == demo_greeting(),
                forall|t: int| 0 <= t < m ==> code@[64 + t] == demo_greeting()[t],
            decreases 34 - m,
        {
            code.push(msg[m]);
            m = m + 1;
        }

        // one user-accessible page of code, one of stack
        let code_frame = match mm.alloc_frame() {
            Some(f) => f,
            None => {
                return Err(crate::vmm::MemError::OutOfFrames);
            },
        };
        proof {
            assert(7u64 & 0xFFF == 7u64 && 7u64 & 1 == 1u64 && 7u64 & 2 == 2u64 && 7u64 & 4
                == 4u64) by (bit_vector);
            lemma_index_bounds(code_frame);
            assert(page_base(code_frame) & ENTRY_ADDR_MASK == page_base(code_frame))
                by (bit_vector)
                requires
                    code_frame < 0x10_0000_0000_0000,
            ;
            lemma_make_entry(page_base(code_frame), 7u64);
        }
        let ghost fbase = page_base(code_frame);
        match mm.map_page(user_code_addr, code_frame, 7) {
            Ok(_) => {},
            Err(e) => {
                return Err(e);
            },
        }
        let ghost sm = *mm;
        proof {
            lemma_page_base_same_indices(user_code_addr, user_code_addr);
            assert(present_leaf_flags(sm.pt(), sm.root(), user_code_addr) == Some(7u64));
            assert(forall|w: u64|
                same_page(w, user_code_addr) ==> #[trigger] translate_spec(sm.pt(), sm.root(), w)
                    == Some((fbase + page_offset(w)) as u64));
        }
        let n = code.len();
        let mut i: usize = 0;
        while i < n
            invariant
                mm.wf(),
                mm.roots_seq() == old(mm).roots_seq(),
                mm.root() == old(mm).root(),
                mm.offset() == old(mm).offset(),
                mm.pt() == sm.pt(),
                mm.root() == sm.root(),
                fbase % 4096 == 0,
                fbase < 0x10_0000_0000_0000,
                n == code@.len(),
                n == 98,
                i <= n,
                user_code_addr == 0x40_0000u64,
                forall|t: int| 0 <= t < 34 ==> code@[64 + t] == demo_greeting()[t],
                forall|w: u64|
                    same_page(w, user_code_addr) ==> #[trigger] translate_spec(
                        mm.pt(),
                        mm.root(),
                        w,
                    ) == Some((fbase + page_offset(w)) as u64),
                forall|jj: int|
                    0 <= jj < i ==> #[trigger] virt_byte(
                        mm.pt(),
                        mm.ram_map(),
                        mm.root(),
                        (user_code_addr + jj) as u64,
                    ) == code@[jj],
            decreases n - i,
        {
            let iu = i as u64;
            let v = user_code_addr + iu;
            proof {
                assert(page_base(v) == 0x40_0000u64 && page_offset(v) == iu) by (bit_vector)
                    requires
                        v == 0x40_0000u64 + iu,
                        iu < 4096,
                ;
                lemma_page_base_same_indices(v, v);
                assert(same_page(v, user_code_addr));
                assert(translate_spec(mm.pt(), mm.root(), v) == Some((fbase + iu) as u64));
            }
            let b = code[i];
            let ghost pre = *mm;
            match mm.write_virt_byte(v, b) {
                Ok(_) => {},
                Err(_) => {
                    proof {
                        assert(false);
                    }
                    return Err(MemError::NotMapped);
                },
            }
            proof {
                assert forall|jj: int|
                    0 <= jj < i + 1 implies #[trigger] virt_byte(
                    mm.pt(),
                    mm.ram_map(),
                    mm.root(),
                    (user_code_addr + jj) as u64,
                ) == code@[jj] by {
                    let ju = jj as u64;
                    let w = (user_code_addr + jj) as u64;
                    assert(page_base(w) == 0x40_0000u64 && page_offset(w) == ju) by (bit_vector)
                        requires
                            w == 0x40_0000u64 + ju,
                            ju < 4096,
                    ;
                    lemma_page_base_same_indices(w, w);
                    assert(same_page(w, user_code_addr));
                    assert(translate_spec(mm.pt(), mm.root(), w) == Some((fbase + ju) as u64));
                    if jj < i as int {
                        assert((fbase + ju) as u64 != (fbase + iu) as u64);
                        assert(virt_byte(pre.pt(), pre.ram_map(), pre.root(), w) == code@[jj]);
                    }
                }
            }
            i = i + 1;
        }
        let ghost sc = *mm;
        let stack_frame = match mm.alloc_frame() {
            Some(f) => f,
            None => {
                return Err(crate::vmm::MemError::OutOfFrames);
            },
        };
        proof {
            assert(7u64 & 0xFFF == 7u64 && 7u64 & 1 == 1u64 && 7u64 & 2 == 2u64 && 7u64 & 4
                == 4u64) by (bit_vector);
            lemma_index_bounds(stack_frame);
            assert(page_base(stack_frame) & ENTRY_ADDR_MASK == page_base(stack_frame))
                by (bit_vector)
                requires
                    stack_frame < 0x10_0000_0000_0000,
            ;
            lemma_make_entry(page_base(stack_frame), 7u64);
        }
        let stack_page = user_stack_addr - 4096;
        match mm.map_page(stack_page, stack_frame, 7) {
            Ok(_) => {},
            Err(e) => {
                return Err(e);
            },
        }
        proof {
            // the stack page is a different page, so everything placed on
            // the code page survives the second mapping
            lemma_low_pages_distinct(user_code_addr, stack_page);
            lemma_page_base_same_indices(stack_page, stack_page);
            assert(present_leaf_flags(mm.pt(), mm.root(), stack_page) == Some(7u64));
            assert(translate_spec(mm.pt(), mm.root(), stack_page) is Some);
            assert(!same_page(user_code_addr, stack_page));
            assert(present_leaf_flags(mm.pt(), mm.root(), user_code_addr) == Some(7u64));
            assert(translate_spec(mm.pt(), mm.root(), user_code_addr) is Some);
            assert forall|j: int|
                0 <= j < 34 implies #[trigger] virt_byte(
                mm.pt(),
                mm.ram_map(),
                mm.root(),
                (user_code_addr + 64 + j) as u64,
            ) == demo_greeting()[j] by {
                let ju = (64 + j) as u64;
                let w = (user_code_addr + 64 + j) as u64;
                assert(page_base(w) == 0x40_0000u64 && page_offset(w) == ju) by (bit_vector)
                    requires
                        w == 0x40_0000u64 + ju,
                        ju < 4096,
                ;
                lemma_page_base_same_indices(w, w);
                assert(same_page(w, user_code_addr));
                assert(!same_page(w, stack_page));
                assert(translate_spec(mm.pt(), mm.root(), w) == translate_spec(
                    sc.pt(),
                    sc.root(),
                    w,
                ));
                let jj = 64 + j;
                assert(virt_byte(sc.pt(), sc.ram_map(), sc.root(), (user_code_addr + jj) as u64)
                    == code@[jj]);
                assert((user_code_addr + jj) as u64 == w);
                assert(virt_byte(sc.pt(), sc.ram_map(), sc.root(), w) == code@[64 + j]);
            }
            assert(7u64 & 4 == 4u64 && 7u64 & 2 == 2u64) by (bit_vector);
        }
        Ok((user_code_addr, user_stack_addr))
    }

    /// Hands the console contents out for display.
    pub fn console_contents(&self) -> (r: &Vec<u8>)
        ensures
            r@ == self.console_bytes(),
    {
        &self.console
    }
}

} // verus!
