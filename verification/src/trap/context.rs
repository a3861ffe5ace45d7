//! The trap context: the registers of a user program, saved while the kernel runs.

use vstd::prelude::*;
use crate::address::PhysPageNum;
use crate::mm::phys_memory::PhysMemory;

verus! {

/// Number of 64-bit words of a trap context.
pub const TRAP_CONTEXT_WORDS: usize = 37;

/// The saved state of a user program.
#[derive(Clone, Copy, Debug)]
pub struct TrapContext {
    /// The general registers.
    pub x: [u64; 32],
    /// The status register of the supervisor.
    pub sstatus: u64,
    /// The address at which the program goes on.
    pub sepc: u64,
    /// The address-translation register value of the kernel.
    pub kernel_satp: u64,
    /// The top of the kernel stack of the program.
    pub kernel_sp: u64,
    /// The address of the trap handler.
    pub trap_handler: u64,
}

/// The bits of the status register that the register type of the `riscv` crate keeps.
pub const SSTATUS_MASK: u64 = 0x8000_0003_000d_e762;

/// The status with the previous privilege mode set to user: bit 8 cleared.
pub open spec fn user_sstatus(bits: u64) -> u64 {
    bits & 0x8000_0003_000d_e762 & !0x100u64
}

/// Calls `riscv::register::sstatus::Sstatus::set_spp` with the user mode on a register
/// value.
///
/// The crate keeps the bits of the register that it knows and clears bit 8, the
/// previous privilege mode.
#[verifier::external_body]
fn sstatus_with_user_spp(bits: u64) -> (r: u64)
    ensures
        r == user_sstatus(bits),
{
    let mut status = riscv::register::sstatus::Sstatus::from_bits(bits as usize);
    status.set_spp(riscv::register::sstatus::SPP::User);
    status.bits() as u64
}

impl TrapContext {
    /// The `i`-th word of the trap context as it lies in memory: the general registers,
    /// then the status, the program counter, the address-translation register value of
    /// the kernel, the kernel stack pointer and the trap handler.
    pub open spec fn word(self, i: int) -> u64 {
        if i < 32 {
            self.x@[i]
        } else if i == 32 {
            self.sstatus
        } else if i == 33 {
            self.sepc
        } else if i == 34 {
            self.kernel_satp
        } else if i == 35 {
            self.kernel_sp
        } else {
            self.trap_handler
        }
    }

    /// Sets the stack pointer of the program.
    pub fn set_sp(&mut self, sp: u64)
        ensures
            final(self).x@ == old(self).x@.update(2, sp),
            final(self).sstatus == old(self).sstatus,
            final(self).sepc == old(self).sepc,
            final(self).kernel_satp == old(self).kernel_satp,
            final(self).kernel_sp == old(self).kernel_sp,
            final(self).trap_handler == old(self).trap_handler,
    {
        self.x[2] = sp;
    }

    /// The trap context of a program that is about to start at `entry` with the stack
    /// pointer `sp`: all other registers zero; the status `sstatus`, as read from the
    /// machine, with the previous privilege mode set to user.
    pub fn app_init_context(
        entry: u64,
        sp: u64,
        kernel_satp: u64,
        kernel_sp: u64,
        trap_handler: u64,
        sstatus: u64,
    ) -> (cx: Self)
        ensures
            cx.x@ == Seq::new(32, |i: int| 0u64).update(2, sp),
            cx.sstatus == user_sstatus(sstatus),
            cx.sepc == entry,
            cx.kernel_satp == kernel_satp,
            cx.kernel_sp == kernel_sp,
            cx.trap_handler == trap_handler,
    {
        let mut cx = TrapContext {
            x: [0u64; 32],
            sstatus: sstatus_with_user_spp(sstatus),
            sepc: entry,
            kernel_satp,
            kernel_sp,
            trap_handler,
        };
        assert(cx.x@ =~= Seq::new(32, |i: int| 0u64));
        cx.set_sp(sp);
        cx
    }

    /// Reads the trap context that lies at the start of frame `ppn`.
    pub fn load(memory: &PhysMemory, ppn: PhysPageNum) -> (cx: Self)
        requires
            memory.wf(),
            memory.has(ppn.0),
        ensures
            forall|i: int| 0 <= i < 37 ==> #[trigger] cx.word(i) == memory.word(ppn.0, i),
    {
        let mut x: [u64; 32] = [0u64; 32];
        let mut i: usize = 0;
        while i < 32
            invariant
                i <= 32,
                memory.wf(),
                memory.has(ppn.0),
                forall|j: int| 0 <= j < i ==> x@[j] == memory.word(ppn.0, j),
            decreases 32 - i,
        {
            x[i] = memory.read_u64(ppn, i);
            i = i + 1;
        }
        TrapContext {
            x,
            sstatus: memory.read_u64(ppn, 32),
            sepc: memory.read_u64(ppn, 33),
            kernel_satp: memory.read_u64(ppn, 34),
            kernel_sp: memory.read_u64(ppn, 35),
            trap_handler: memory.read_u64(ppn, 36),
        }
    }

    /// Writes the trap context to the start of frame `ppn`.
    pub fn store(&self, memory: &mut PhysMemory, ppn: PhysPageNum)
        requires
            old(memory).wf(),
            old(memory).has(ppn.0),
        ensures
            final(memory).wf(),
            final(memory).base() == old(memory).base(),
            final(memory).frames().len() == old(memory).frames().len(),
            forall|i: int| 0 <= i < 37 ==> #[trigger] final(memory).word(ppn.0, i) == self.word(i),
            forall|q: u64|
                q != ppn.0 && old(memory).has(q) ==> #[trigger] final(memory).frame(q) == old(memory).frame(q),
    {
        let ghost memory0 = *memory;
        let mut i: usize = 0;
        while i < 37
            invariant
                i <= 37,
                memory.wf(),
                memory.has(ppn.0),
                memory.base() == memory0.base(),
                memory.frames().len() == memory0.frames().len(),
                forall|j: int| 0 <= j < i ==> #[trigger] memory.word(ppn.0, j) == self.word(j),
                forall|q: u64|
                    q != ppn.0 && memory0.has(q) ==> #[trigger] memory.frame(q) == memory0.frame(q),
            decreases 37 - i,
        {
            let ghost memory1 = *memory;
            let w: u64 = if i < 32 {
                self.x[i]
            } else if i == 32 {
                self.sstatus
            } else if i == 33 {
                self.sepc
            } else if i == 34 {
                self.kernel_satp
            } else if i == 35 {
                self.kernel_sp
            } else {
                self.trap_handler
            };
            memory.write_u64(ppn, i, w);
            proof {
                crate::mm::page_table::lemma_word_written(memory1, *memory, ppn.0, i as int, w);
            }
            i = i + 1;
        }
    }
}

} // verus!
