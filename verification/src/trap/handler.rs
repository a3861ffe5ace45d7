//! The trap handler: what the kernel does when a user program traps.

use vstd::prelude::*;
use crate::kernel::{Kernel, KernelError};
use crate::syscall::{served, syscall, SyscallOutcome};
use crate::task::processor::{current_index, current_user_token, no_live_task};
use crate::task::task::TaskStatus;
use crate::task::{exit_current_and_run_next, exited, suspend_current_and_run_next};
use crate::timer::set_next_trigger;
use crate::trap::cause::{trap_cause, trap_cause_of, TrapCause};

verus! {

/// Why the running task left the processor.
#[derive(Clone, Copy, Debug, PartialEq, Eq, Structural)]
pub enum SwitchCause {
    /// It gave the processor up.
    Yielded,
    /// The timer took the processor away; the next timer interrupt is due at this value
    /// of the cycle counter.
    Preempted(u64),
    /// It ended with this exit code.
    Exited(i32),
    /// The kernel ended it after a fault of a load or a store.
    PageFault,
    /// The kernel ended it after an illegal instruction.
    IllegalInstruction,
}

/// What the caller of the kernel has to do after a trap.
pub enum TrapOutcome {
    /// Go back to user mode, into the address space that the register value names.
    /// The result of the system call is in the trap context.
    Resume(u64, isize),
    /// Write the bytes to the console, then go back to user mode.
    Console(Vec<u8>, u64, isize),
    /// Get a character from the console for the running task, which wants it at this
    /// address, and hand it to `finish_read`.
    NeedChar(u64),
    /// Switch to the idle loop: the running task has left the processor.
    Switch(SwitchCause),
    /// Stop: the kernel cannot go on.
    Fatal(KernelError),
}

/// What handing the result `value` to the task with the number `pid` does: register
/// 10 of its trap context holds the value, and nothing else has changed. Nothing at
/// all has changed if the task is not in the table or is a zombie.
pub open spec fn result_set(before: Kernel, after: Kernel, pid: usize, value: isize) -> bool {
    if before.has_task(pid) && before.tasks@[before.index_of(pid)].inner().task_status
        != TaskStatus::Zombie {
        let ppn = before.tasks@[before.index_of(pid)].inner().trap_cx_ppn.0;
        &&& after.same_but_pool(before)
        &&& after.pool.allocator == before.pool.allocator
        &&& crate::mm::memory_set::untouched(before.pool, after.pool, |q: u64| q == ppn)
        &&& forall|i: int|
            0 <= i < 37 ==> #[trigger] after.pool.memory.word(ppn, i) == if i == 10 {
                value as u64
            } else {
                before.pool.memory.word(ppn, i)
            }
    } else {
        after == before
    }
}

/// Puts `value` into register 10 of the trap context of the task with the number
/// `pid`, as the result of its system call. Nothing happens if the task is gone.
pub fn set_result(kernel: &mut Kernel, pid: usize, value: isize)
    requires
        old(kernel).wf(),
    ensures
        final(kernel).wf(),
        final(kernel).same_but_pool(*old(kernel)),
        result_set(*old(kernel), *final(kernel), pid, value),
        old(kernel).has_task(pid) && old(kernel).tasks@[old(kernel).index_of(
            pid,
        )].inner().task_status != TaskStatus::Zombie ==> final(kernel).pool.memory.word(
            old(kernel).tasks@[old(kernel).index_of(pid)].inner().trap_cx_ppn.0,
            10,
        ) == value as u64,
{
    match kernel.find_task(pid) {
        Some(t) => {
            proof {
                kernel.lemma_index_of(t as int, pid);
            }
            if !kernel.tasks[t].inner_ref().is_zombie() {
                let ghost ppn = kernel.tasks@[t as int].inner().trap_cx_ppn.0;
                let mut cx = kernel.read_trap_cx(t);
                let ghost cx0 = cx;
                cx.x[10] = value as u64;
                kernel.write_trap_cx(t, &cx);
                proof {
                    assert forall|i: int| 0 <= i < 37 implies #[trigger] kernel.pool.memory.word(
                        ppn,
                        i,
                    ) == if i == 10 {
                        value as u64
                    } else {
                        old(kernel).pool.memory.word(ppn, i)
                    } by {
                        assert(kernel.pool.memory.word(ppn, i) == cx.word(i));
                        assert(cx0.word(i) == old(kernel).pool.memory.word(ppn, i));
                    }
                }
            }
        },
        None => {
            proof {
                if kernel.has_task(pid) {
                    let u = kernel.index_of(pid);
                    assert(kernel.is_task(u, pid));
                }
            }
        },
    }
}

/// Why the running task could not be ended, where it could not: no task is on the
/// processor, or the task on the processor is not in the table. Tasks and frames are
/// then as they were.
pub open spec fn exit_failure(before: Kernel, after: Kernel, e: KernelError) -> bool {
    &&& after.tasks == before.tasks
    &&& after.pool == before.pool
    &&& after.manager == before.manager
    &&& match before.processor.running() {
        None => e == KernelError::NoCurrentTask,
        Some(pid) => e == KernelError::NoSuchTask && !before.has_task(pid),
    }
}

/// Handles a trap from user mode. `scause` and `stval` are the values of the cause
/// register and the trap value register, `ticks` that of the cycle counter.
///
/// A system call moves the program counter of the task past the call instruction,
/// does the call and puts its result into the trap context. A fault of a load or a
/// store and an illegal instruction end the task with the exit code -1. The timer
/// sets the next timer interrupt and takes the processor away from the task. Any
/// other trap stops the kernel.
pub fn trap_handler(kernel: &mut Kernel, scause: u64, stval: u64, ticks: u64) -> (r: TrapOutcome)
    requires
        old(kernel).wf(),
    ensures
        final(kernel).wf(),
        final(kernel).env == old(kernel).env,
        final(kernel).apps == old(kernel).apps,
        match trap_cause_of(scause) {
            TrapCause::Other => (r matches TrapOutcome::Fatal(KernelError::UnsupportedTrap))
                && *final(kernel) == *old(kernel),
            TrapCause::SupervisorTimer => match r {
                TrapOutcome::Switch(SwitchCause::Preempted(next)) => {
                    &&& next == (ticks + 125_000) % 0x1_0000_0000_0000_0000
                    &&& final(kernel).processor.running() is None
                    &&& (old(kernel).processor.running() matches Some(pid) && final(kernel).manager@
                        == old(kernel).manager@.push(pid))
                    &&& final(kernel).pool == old(kernel).pool
                    &&& crate::syscall::process::yielded(
                        *old(kernel),
                        *final(kernel),
                        SyscallOutcome::Suspended(0),
                    )
                },
                TrapOutcome::Fatal(e) => final(kernel).tasks == old(kernel).tasks && final(kernel).manager
                    == old(kernel).manager && no_live_task(*old(kernel), e),
                _ => false,
            },
            TrapCause::UserEnvCall => env_call(*old(kernel), *final(kernel), ticks, r) && match r {
                TrapOutcome::Resume(token, v) => resumed(*final(kernel), token, v),
                TrapOutcome::Console(_, token, v) => resumed(*final(kernel), token, v),
                TrapOutcome::Switch(cause) => (cause is Yielded || cause is Exited)
                    && final(kernel).processor.running() is None,
                _ => true,
            },
            TrapCause::IllegalInstruction => match r {
                TrapOutcome::Switch(cause) => cause == SwitchCause::IllegalInstruction && (old(kernel).processor.running() matches Some(pid) && exited(
                    *old(kernel),
                    *final(kernel),
                    pid,
                    -1i32,
                )),
                TrapOutcome::Fatal(e) => exit_failure(*old(kernel), *final(kernel), e),
                _ => false,
            },
            _ => match r {
                TrapOutcome::Switch(cause) => cause == SwitchCause::PageFault && (old(kernel).processor.running() matches Some(pid) && exited(
                    *old(kernel),
                    *final(kernel),
                    pid,
                    -1i32,
                )),
                TrapOutcome::Fatal(e) => exit_failure(*old(kernel), *final(kernel), e),
                _ => false,
            },
        },
{
    match trap_cause(scause) {
        TrapCause::UserEnvCall => user_env_call(kernel, ticks),
        TrapCause::StoreFault
        | TrapCause::StorePageFault
        | TrapCause::LoadFault
        | TrapCause::LoadPageFault => {
            match exit_current_and_run_next(kernel, -1) {
                Ok(_) => TrapOutcome::Switch(SwitchCause::PageFault),
                Err(e) => TrapOutcome::Fatal(e),
            }
        },
        TrapCause::IllegalInstruction => {
            match exit_current_and_run_next(kernel, -1) {
                Ok(_) => TrapOutcome::Switch(SwitchCause::IllegalInstruction),
                Err(e) => TrapOutcome::Fatal(e),
            }
        },
        TrapCause::SupervisorTimer => {
            let next = set_next_trigger(ticks);
            match suspend_current_and_run_next(kernel) {
                Ok(_) => TrapOutcome::Switch(SwitchCause::Preempted(next)),
                Err(e) => TrapOutcome::Fatal(e),
            }
        },
        TrapCause::Other => TrapOutcome::Fatal(KernelError::UnsupportedTrap),
    }
}

/// The running task goes back to user mode with `value` as the result of its system
/// call: `token` names its address space, and register 10 of its trap context holds
/// the result.
pub open spec fn resumed(kernel: Kernel, token: u64, value: isize) -> bool {
    kernel.processor.running() matches Some(pid) && kernel.has_task(pid) && ({
        let inner = kernel.tasks@[kernel.index_of(pid)].inner();
        &&& inner.task_status != TaskStatus::Zombie
        &&& token == (8u64 << 60) | inner.memory_set@.root
        &&& kernel.pool.memory.word(inner.trap_cx_ppn.0, 10) == value as u64
    })
}

/// The trap context of the `t`-th task has its program counter moved past the call
/// instruction; nothing else has changed.
pub open spec fn stepped(before: Kernel, after: Kernel, t: int) -> bool {
    let ppn = before.tasks@[t].inner().trap_cx_ppn.0;
    let pc = before.pool.memory.word(ppn, 33);
    &&& after.wf()
    &&& after.same_but_pool(before)
    &&& after.pool.allocator == before.pool.allocator
    &&& crate::mm::memory_set::untouched(before.pool, after.pool, |q: u64| q == ppn)
    &&& forall|i: int|
        0 <= i < 37 ==> #[trigger] after.pool.memory.word(ppn, i) == if i == 33 {
            if pc + 4 > u64::MAX {
                (pc + 4 - 0x1_0000_0000_0000_0000) as u64
            } else {
                (pc + 4) as u64
            }
        } else {
            before.pool.memory.word(ppn, i)
        }
}

/// A task that is no zombie is on the processor.
pub open spec fn task_running(kernel: Kernel) -> bool {
    kernel.processor.running() matches Some(pid) && kernel.has_task(pid) && kernel.tasks@[kernel.index_of(
        pid,
    )].inner().task_status != TaskStatus::Zombie
}

/// What the trap handler makes of the outcome `out` of the system call of the task
/// `pid`, which wanted a character at `buf` if it asked for one: the result goes into
/// the trap context of the task, and the caller learns what to do.
pub open spec fn answered(
    mid: Kernel,
    after: Kernel,
    pid: usize,
    buf: u64,
    out: SyscallOutcome,
    r: TrapOutcome,
) -> bool {
    match out {
        SyscallOutcome::Done(v) => after.same_but_pool(mid) && result_set(mid, after, pid, v) && match r {
            TrapOutcome::Resume(token, w) => w == v && resumed(after, token, v),
            TrapOutcome::Fatal(e) => !task_running(after),
            _ => false,
        },
        SyscallOutcome::Console(bytes, v) => after.same_but_pool(mid) && result_set(
            mid,
            after,
            pid,
            v,
        ) && match r {
            TrapOutcome::Console(b, token, w) => b == bytes && w == v && resumed(after, token, v),
            TrapOutcome::Fatal(e) => !task_running(after),
            _ => false,
        },
        SyscallOutcome::Suspended(v) => {
            &&& r matches TrapOutcome::Switch(SwitchCause::Yielded)
            &&& after.same_but_pool(mid)
            &&& result_set(mid, after, pid, v)
            &&& mid.has_task(pid) && mid.tasks@[mid.index_of(pid)].inner().task_status
                != TaskStatus::Zombie ==> after.pool.memory.word(
                mid.tasks@[mid.index_of(pid)].inner().trap_cx_ppn.0,
                10,
            ) == v as u64
        },
        SyscallOutcome::Exited(code) => after == mid && (r matches TrapOutcome::Switch(
            SwitchCause::Exited(c),
        ) && c == code),
        SyscallOutcome::NeedChar => after == mid && (r matches TrapOutcome::NeedChar(b) && b == buf),
        SyscallOutcome::Fatal(e) => after == mid && (r matches TrapOutcome::Fatal(f) && f == e),
    }
}

/// What a system call from user mode does. The number of the call is in register 17
/// of the trap context of the running task, its arguments are in the registers 10 to
/// 12. The program counter of the task moves past the call instruction, the call is
/// served, and its result goes into register 10. Without a running task that is no
/// zombie the kernel cannot go on.
pub open spec fn env_call(before: Kernel, after: Kernel, ticks: u64, r: TrapOutcome) -> bool {
    match before.processor.running() {
        None => after == before && r matches TrapOutcome::Fatal(KernelError::NoCurrentTask),
        Some(pid) => if !task_running(before) {
            after == before && r matches TrapOutcome::Fatal(KernelError::NoSuchTask)
        } else {
            let t = before.index_of(pid);
            let ppn = before.tasks@[t].inner().trap_cx_ppn.0;
            exists|k1: Kernel, k2: Kernel, args: [u64; 3], out: SyscallOutcome|
                #![trigger stepped(before, k1, t), served(k1, k2, before.pool.memory.word(ppn, 17) as usize, args, ticks, out)]
                {
                    &&& stepped(before, k1, t)
                    &&& args[0] == before.pool.memory.word(ppn, 10)
                    &&& args[1] == before.pool.memory.word(ppn, 11)
                    &&& args[2] == before.pool.memory.word(ppn, 12)
                    &&& served(k1, k2, before.pool.memory.word(ppn, 17) as usize, args, ticks, out)
                    &&& k2.wf()
                    &&& answered(k2, after, pid, args[1], out, r)
                }
        },
    }
}

/// Handles a system call of the running task.
fn user_env_call(kernel: &mut Kernel, ticks: u64) -> (r: TrapOutcome)
    requires
        old(kernel).wf(),
    ensures
        final(kernel).wf(),
        final(kernel).env == old(kernel).env,
        final(kernel).apps == old(kernel).apps,
        match r {
            TrapOutcome::Resume(token, v) => resumed(*final(kernel), token, v),
            TrapOutcome::Console(_, token, v) => resumed(*final(kernel), token, v),
            TrapOutcome::Switch(cause) => (cause is Yielded || cause is Exited)
                && final(kernel).processor.running() is None,
            _ => true,
        },
        env_call(*old(kernel), *final(kernel), ticks, r),
{
    let t = match current_index(kernel) {
        Ok(t) => t,
        Err(e) => {
            return TrapOutcome::Fatal(e);
        },
    };
    let ghost who = kernel.processor.running()->Some_0;
    proof {
        assert(kernel.is_task(t as int, who));
        assert(kernel.has_task(who) && kernel.index_of(who) == t);
    }
    if kernel.tasks[t].inner_ref().is_zombie() {
        return TrapOutcome::Fatal(KernelError::NoSuchTask);
    }
    let pid: usize = kernel.tasks[t].getpid();
    let ghost kernel0 = *kernel;
    let ghost ppn = kernel.tasks@[t as int].inner().trap_cx_ppn.0;
    let mut cx = kernel.read_trap_cx(t);
    let ghost cx0 = cx;
    cx.sepc = cx.sepc.wrapping_add(4);
    kernel.write_trap_cx(t, &cx);
    let ghost k1 = *kernel;
    let id: usize = cx.x[17] as usize;
    let args: [u64; 3] = [cx.x[10], cx.x[11], cx.x[12]];
    proof {
        assert forall|i: int| 0 <= i < 37 implies #[trigger] k1.pool.memory.word(ppn, i) == if i
            == 33 {
            if kernel0.pool.memory.word(ppn, 33) + 4 > u64::MAX {
                (kernel0.pool.memory.word(ppn, 33) + 4 - 0x1_0000_0000_0000_0000) as u64
            } else {
                (kernel0.pool.memory.word(ppn, 33) + 4) as u64
            }
        } else {
            kernel0.pool.memory.word(ppn, i)
        } by {
            assert(k1.pool.memory.word(ppn, i) == cx.word(i));
            assert(cx0.word(i) == kernel0.pool.memory.word(ppn, i));
            assert(cx0.word(33) == kernel0.pool.memory.word(ppn, 33));
        }
        assert(stepped(kernel0, k1, t as int));
        assert(cx0.word(10) == kernel0.pool.memory.word(ppn, 10));
        assert(cx0.word(11) == kernel0.pool.memory.word(ppn, 11));
        assert(cx0.word(12) == kernel0.pool.memory.word(ppn, 12));
        assert(cx0.word(17) == kernel0.pool.memory.word(ppn, 17));
    }
    let out = syscall(kernel, id, args, ticks);
    let ghost k2 = *kernel;
    let ghost out0 = out;
    let r = match out {
        SyscallOutcome::Done(v) => {
            set_result(kernel, pid, v);
            proof {
                lemma_same_index(k2, *kernel, pid);
            }
            go_on(kernel, v, None)
        },
        SyscallOutcome::Console(bytes, v) => {
            set_result(kernel, pid, v);
            proof {
                lemma_same_index(k2, *kernel, pid);
            }
            go_on(kernel, v, Some(bytes))
        },
        SyscallOutcome::Suspended(v) => {
            set_result(kernel, pid, v);
            TrapOutcome::Switch(SwitchCause::Yielded)
        },
        SyscallOutcome::Exited(code) => TrapOutcome::Switch(SwitchCause::Exited(code)),
        SyscallOutcome::NeedChar => TrapOutcome::NeedChar(cx.x[11]),
        SyscallOutcome::Fatal(e) => TrapOutcome::Fatal(e),
    };
    proof {
        assert(answered(k2, *kernel, pid, args[1], out0, r));
        assert(served(k1, k2, kernel0.pool.memory.word(ppn, 17) as usize, args, ticks, out0));
        assert(env_call(kernel0, *kernel, ticks, r));
    }
    r
}

/// The way back to user mode for the running task, once the result `value` of its
/// system call is in its trap context.
fn go_on(kernel: &Kernel, value: isize, bytes: Option<Vec<u8>>) -> (r: TrapOutcome)
    requires
        kernel.wf(),
    ensures
        match r {
            TrapOutcome::Resume(token, v) => v == value && bytes is None && running_token(
                *kernel,
                token,
            ),
            TrapOutcome::Console(b, token, v) => v == value && bytes == Some(b) && running_token(
                *kernel,
                token,
            ),
            TrapOutcome::Fatal(e) => !task_running(*kernel) && no_live_task(*kernel, e),
            _ => false,
        },
{
    let t = match current_index(kernel) {
        Ok(t) => t,
        Err(e) => {
            return TrapOutcome::Fatal(e);
        },
    };
    if kernel.tasks[t].inner_ref().is_zombie() {
        return TrapOutcome::Fatal(KernelError::NoSuchTask);
    }
    let token = kernel.tasks[t].inner_ref().get_user_token();
    match bytes {
        Some(b) => TrapOutcome::Console(b, token, value),
        None => TrapOutcome::Resume(token, value),
    }
}

/// Consistent kernels with the same table of tasks find a task at the same place.
pub proof fn lemma_same_index(before: Kernel, after: Kernel, pid: usize)
    requires
        before.wf(),
        after.wf(),
        after.tasks == before.tasks,
    ensures
        after.has_task(pid) == before.has_task(pid),
        before.has_task(pid) ==> after.index_of(pid) == before.index_of(pid),
{
    if before.has_task(pid) {
        let t = before.index_of(pid);
        assert(before.is_task(t, pid));
        assert(after.is_task(t, pid));
        after.lemma_index_of(t, pid);
    }
    if after.has_task(pid) {
        let t = after.index_of(pid);
        assert(after.is_task(t, pid));
        assert(before.is_task(t, pid));
    }
}

/// `token` names the address space of the running task, which is no zombie.
pub open spec fn running_token(kernel: Kernel, token: u64) -> bool {
    kernel.processor.running() matches Some(pid) && kernel.has_task(pid) && ({
        let inner = kernel.tasks@[kernel.index_of(pid)].inner();
        &&& inner.task_status != TaskStatus::Zombie
        &&& token == (8u64 << 60) | inner.memory_set@.root
    })
}

/// What going on with a read does, after the console gave the character `c`: the
/// character is handed to the task as `sys_read_char` says; a task that got its
/// character goes back to user mode with the result zero, a task that got none has
/// given up the processor.
pub open spec fn read_finished(before: Kernel, after: Kernel, buf: u64, c: u64, r: TrapOutcome) -> bool {
    exists|mid: Kernel, out: SyscallOutcome|
        #![trigger crate::syscall::fs::char_read(before, mid, buf, c, out)]
        {
            &&& crate::syscall::fs::char_read(before, mid, buf, c, out)
            &&& mid.wf()
            &&& match out {
                SyscallOutcome::Done(v) => before.processor.running() matches Some(pid) && answered(
                    mid,
                    after,
                    pid,
                    buf,
                    out,
                    r,
                ),
                SyscallOutcome::NeedChar => after == mid && r matches TrapOutcome::Switch(
                    SwitchCause::Yielded,
                ),
                SyscallOutcome::Fatal(e) => after == mid && (r matches TrapOutcome::Fatal(f) && f == e),
                _ => false,
            }
        }
}

/// Goes on after the console gave the character `c` for the read of the running task
/// to the address `buf`: see `sys_read_char`.
pub fn finish_read(kernel: &mut Kernel, buf: u64, c: u64) -> (r: TrapOutcome)
    requires
        old(kernel).wf(),
    ensures
        final(kernel).wf(),
        final(kernel).env == old(kernel).env,
        final(kernel).apps == old(kernel).apps,
        read_finished(*old(kernel), *final(kernel), buf, c, r),
        match r {
            TrapOutcome::Resume(token, v) => c != 0 && v == 0 && resumed(*final(kernel), token, v),
            TrapOutcome::Switch(cause) => c == 0 && cause == SwitchCause::Yielded
                && final(kernel).processor.running() is None,
            TrapOutcome::Fatal(_) => true,
            _ => false,
        },
{
    let running = kernel.processor.current();
    let out = crate::syscall::fs::sys_read_char(kernel, buf, c);
    let ghost mid = *kernel;
    let ghost out0 = out;
    let r = match out {
        SyscallOutcome::Done(v) => {
            match running {
                Some(pid) => {
                    set_result(kernel, pid, v);
                    proof {
                        lemma_same_index(mid, *kernel, pid);
                    }
                    match go_on(kernel, v, None) {
                        TrapOutcome::Resume(token, v) => TrapOutcome::Resume(token, v),
                        _ => TrapOutcome::Fatal(KernelError::NoSuchTask),
                    }
                },
                None => TrapOutcome::Fatal(KernelError::NoCurrentTask),
            }
        },
        SyscallOutcome::NeedChar => TrapOutcome::Switch(SwitchCause::Yielded),
        SyscallOutcome::Fatal(e) => TrapOutcome::Fatal(e),
        _ => TrapOutcome::Fatal(KernelError::UnsupportedRead),
    };
    proof {
        assert(crate::syscall::fs::char_read(*old(kernel), mid, buf, c, out0));
        assert(read_finished(*old(kernel), *kernel, buf, c, r));
    }
    r
}

/// What the way back to user mode needs: the address of the trap context, the register
/// value that names the address space of the running task, and the address of the code
/// that restores the registers, which lies in the trampoline page as far behind its
/// start as `restore` lies behind `alltraps` in the kernel image.
pub fn trap_return(kernel: &Kernel, alltraps: u64, restore: u64) -> (r: Result<
    (u64, u64, u64),
    KernelError,
>)
    requires
        kernel.wf(),
    ensures
        match r {
            Ok((trap_cx_ptr, token, restore_va)) => {
                &&& trap_cx_ptr == crate::config::TRAP_CONTEXT
                &&& running_token(*kernel, token)
                &&& alltraps <= restore
                &&& restore - alltraps < 4096
                &&& restore_va == crate::config::TRAMPOLINE + (restore - alltraps)
            },
            Err(e) => if restore < alltraps || restore - alltraps >= 4096 {
                e == KernelError::BadLayout
            } else {
                no_live_task(*kernel, e)
            },
        },
{
    if restore < alltraps || restore - alltraps >= 4096 {
        return Err(KernelError::BadLayout);
    }
    match go_on(kernel, 0, None) {
        TrapOutcome::Resume(token, _) => Ok(
            (crate::config::TRAP_CONTEXT, token, crate::config::TRAMPOLINE + (restore - alltraps)),
        ),
        TrapOutcome::Fatal(e) => Err(e),
        _ => Err(KernelError::NoSuchTask),
    }
}

/// A trap from the kernel itself stops the kernel.
pub fn trap_from_kernel() -> (r: KernelError)
    ensures
        r == KernelError::KernelTrap,
{
    KernelError::KernelTrap
}

} // verus!
