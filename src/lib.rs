//! Virtual address-space management for a small RISC-V (SV39) teaching kernel:
//! page tables, mapped regions, address spaces and the `mmap`/`munmap`
//! service, together with the process-level synchronisation bookkeeping
//! that the kernel keeps next to them.
pub mod config;
pub mod address;
pub mod frame_allocator;
pub mod page_table;
pub mod memory_set;
pub mod elf;
pub mod syscall;
pub mod sync;
pub mod process;
pub mod deadlock;
pub mod task;
pub mod fs;
