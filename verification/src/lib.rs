//! Core of a small 64-bit kernel: physical frame allocation, four-level
//! page-table management, program loading, and the system-call layer.
//!
//! Hardware state (page-table memory, RAM contents, control registers) is
//! modelled by explicitly owned service objects; the thin layer that pokes
//! the real registers lives outside the verified library.

pub mod devices;
pub mod fat;
pub mod graphics;
pub mod paging;
pub mod ram;
pub mod syscall;
pub mod vmm;
pub mod pmm;
pub mod process;
