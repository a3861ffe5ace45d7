//! Traps: the saved state of a user program and the causes of a trap.

pub mod context;
pub mod cause;
pub mod handler;

use vstd::prelude::*;

verus! {

/// The value for the trap vector register that sends traps to the handler at `address`
/// in direct mode: the address, with zero in the two lowest bits.
pub open spec fn trap_vector(address: u64) -> u64 {
    address & !3u64
}

/// Sets trap handling up: the value for the trap vector register while the kernel
/// runs, which sends traps to `trap_from_kernel`.
pub fn init(trap_from_kernel: u64) -> (r: u64)
    ensures
        r == trap_vector(trap_from_kernel),
{
    set_kernel_trap_entry(trap_from_kernel)
}

/// The value for the trap vector register while the kernel runs.
pub fn set_kernel_trap_entry(trap_from_kernel: u64) -> (r: u64)
    ensures
        r == trap_vector(trap_from_kernel),
{
    trap_from_kernel & !3u64
}

/// The value for the trap vector register while a user program runs: traps go to the
/// trampoline.
pub fn set_user_trap_entry() -> (r: u64)
    ensures
        r == trap_vector(crate::config::TRAMPOLINE),
{
    crate::config::TRAMPOLINE & !3u64
}

} // verus!
