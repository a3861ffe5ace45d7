//! The causes of a trap, as the kernel tells them apart.

use vstd::prelude::*;
use riscv::interrupt::supervisor::{Exception, Interrupt};
use riscv::interrupt::Trap;

verus! {

/// Why the processor entered the trap handler.
#[derive(Clone, Copy, Debug, PartialEq, Eq, Structural)]
pub enum TrapCause {
    /// A system call from user mode.
    UserEnvCall,
    /// A store to an address that cannot be accessed.
    StoreFault,
    /// A store to a page that is not mapped for it.
    StorePageFault,
    /// A load from an address that cannot be accessed.
    LoadFault,
    /// A load from a page that is not mapped for it.
    LoadPageFault,
    /// An instruction that is not allowed in user mode, or no instruction at all.
    IllegalInstruction,
    /// The timer of the supervisor has fired.
    SupervisorTimer,
    /// Any other cause.
    Other,
}

/// The cause that the value `bits` of the cause register stands for: bit 63 tells
/// interrupts from exceptions, the other bits hold the code.
pub open spec fn trap_cause_of(bits: u64) -> TrapCause {
    let code = bits & 0x7fff_ffff_ffff_ffff;
    if bits >> 63 == 1 {
        if code == 5 {
            TrapCause::SupervisorTimer
        } else {
            TrapCause::Other
        }
    } else if code == 8 {
        TrapCause::UserEnvCall
    } else if code == 7 {
        TrapCause::StoreFault
    } else if code == 15 {
        TrapCause::StorePageFault
    } else if code == 5 {
        TrapCause::LoadFault
    } else if code == 13 {
        TrapCause::LoadPageFault
    } else if code == 2 {
        TrapCause::IllegalInstruction
    } else {
        TrapCause::Other
    }
}

/// Calls `riscv::register::scause::Scause::cause` on a register value and names the
/// cause it returns.
///
/// The crate takes bit 63 as the interrupt flag and the other bits as the code, and
/// knows the standard supervisor codes; the contract says which of them the kernel
/// tells apart.
#[verifier::external_body]
pub(crate) fn decode_scause(bits: u64) -> (r: TrapCause)
    ensures
        r == trap_cause_of(bits),
{
    let raw = riscv::register::scause::Scause::from_bits(bits as usize).cause();
    match raw.try_into::<Interrupt, Exception>() {
        Ok(Trap::Exception(Exception::UserEnvCall)) => TrapCause::UserEnvCall,
        Ok(Trap::Exception(Exception::StoreFault)) => TrapCause::StoreFault,
        Ok(Trap::Exception(Exception::StorePageFault)) => TrapCause::StorePageFault,
        Ok(Trap::Exception(Exception::LoadFault)) => TrapCause::LoadFault,
        Ok(Trap::Exception(Exception::LoadPageFault)) => TrapCause::LoadPageFault,
        Ok(Trap::Exception(Exception::IllegalInstruction)) => TrapCause::IllegalInstruction,
        Ok(Trap::Interrupt(Interrupt::SupervisorTimer)) => TrapCause::SupervisorTimer,
        _ => TrapCause::Other,
    }
}

/// The cause that the value `scause` of the cause register stands for.
pub fn trap_cause(scause: u64) -> (r: TrapCause)
    ensures
        r == trap_cause_of(scause),
{
    decode_scause(scause)
}

} // verus!
