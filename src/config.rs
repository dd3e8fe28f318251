//! Layout constants shared with the rest of the kernel.
use vstd::prelude::*;

verus! {

/// Size of one page in bytes.
pub const PAGE_SIZE: u64 = 0x1000;

/// Number of low address bits that select a byte within a page.
pub const PAGE_SIZE_BITS: u64 = 12;

/// Size of a user stack in bytes.
pub const USER_STACK_SIZE: u64 = 0x2000;

/// Top of physical memory (exclusive).
pub const MEMORY_END: u64 = 0x8800_0000;

/// Virtual address of the trampoline page: the highest page of the SV39 space.
pub const TRAMPOLINE: u64 = 0x7f_ffff_f000;

/// Virtual address of the trap-context page, right below the trampoline.
pub const TRAP_CONTEXT: u64 = 0x7f_ffff_e000;

/// Number of bits in a virtual address (SV39).
pub const VA_WIDTH: u64 = 39;

/// Number of bits in a physical page number.
pub const PPN_WIDTH: u64 = 44;

/// Number of distinct virtual page numbers (2^27).
pub const VPN_LIMIT: u64 = 0x800_0000;

/// Number of distinct virtual addresses (2^39).
pub const VA_LIMIT: u64 = 0x80_0000_0000;

/// Number of distinct physical page numbers (2^44).
pub const PPN_LIMIT: u64 = 0x1000_0000_0000;

/// Number of entries in one page-table page.
pub const PTE_PER_PAGE: u64 = 512;

} // verus!
