//! Memory layout and timing constants.

use vstd::prelude::*;

verus! {

/// Size of a page and of a physical frame, in bytes.
pub const PAGE_SIZE: u64 = 0x1000;

/// Number of address bits that select a byte inside a page.
pub const PAGE_SIZE_BITS: u64 = 12;

/// Size of each user stack, in bytes.
pub const USER_STACK_SIZE: u64 = 0x2000;

/// Size of each kernel stack, in bytes.
pub const KERNEL_STACK_SIZE: u64 = 0x2000;

/// Size of the kernel heap, in bytes.
pub const KERNEL_HEAP_SIZE: u64 = 0x30_0000;

/// First physical address past the end of usable memory.
pub const MEMORY_END: u64 = 0x8080_0000;

/// Virtual address of the trampoline page: the highest page of every address space.
pub const TRAMPOLINE: u64 = 0xffff_ffff_ffff_f000;

/// Virtual address of the trap context page, just below the trampoline.
pub const TRAP_CONTEXT: u64 = 0xffff_ffff_ffff_e000;

/// Ticks of the cycle counter per second.
pub const CLOCK_FREQ: u64 = 12_500_000;

} // verus!
