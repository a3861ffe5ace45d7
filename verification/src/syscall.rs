//! System calls: the services that user programs ask of the kernel.

pub mod fs;
pub mod process;

use vstd::prelude::*;
use crate::kernel::{Kernel, KernelError};
use crate::syscall::fs::{sys_read, sys_write};
use crate::syscall::process::{
    sys_exec, sys_exit, sys_fork, sys_get_time, sys_getpid, sys_waitpid, sys_yield,
};

verus! {

/// Number of the system call `read`.
pub const SYSCALL_READ: usize = 63;

/// Number of the system call `write`.
pub const SYSCALL_WRITE: usize = 64;

/// Number of the system call `exit`.
pub const SYSCALL_EXIT: usize = 93;

/// Number of the system call `yield`.
pub const SYSCALL_YIELD: usize = 124;

/// Number of the system call `get_time`.
pub const SYSCALL_GET_TIME: usize = 169;

/// Number of the system call `getpid`.
pub const SYSCALL_GETPID: usize = 172;

/// Number of the system call `fork`.
pub const SYSCALL_FORK: usize = 220;

/// Number of the system call `exec`.
pub const SYSCALL_EXEC: usize = 221;

/// Number of the system call `waitpid`.
pub const SYSCALL_WAITPID: usize = 260;

/// How a system call ended, and what the caller of the kernel has to do about it.
pub enum SyscallOutcome {
    /// The call is done. The value goes to the task as the result.
    Done(isize),
    /// The call is done. The bytes go to the console, the value to the task.
    Console(Vec<u8>, isize),
    /// The task has given up the processor. The value is the result it gets when it
    /// goes on.
    Suspended(isize),
    /// The task has ended with this exit code.
    Exited(i32),
    /// The task waits for a character from the console.
    NeedChar,
    /// The kernel cannot go on.
    Fatal(KernelError),
}

/// What the system call with the number `syscall_id` and the arguments `args` does
/// for the running task: what the call of that number does; a number that the kernel
/// does not know ends the task with the exit code -1.
pub open spec fn served(
    before: Kernel,
    after: Kernel,
    syscall_id: usize,
    args: [u64; 3],
    ticks: u64,
    r: SyscallOutcome,
) -> bool {
    if syscall_id == SYSCALL_READ {
        crate::syscall::fs::read_asked(before, after, args[0] as usize, args[2] as usize, r)
    } else if syscall_id == SYSCALL_WRITE {
        crate::syscall::fs::wrote(before, after, args[0] as usize, args[1], args[2] as usize, r)
    } else if syscall_id == SYSCALL_EXIT {
        crate::syscall::process::ended(before, after, r, args[0] as i32)
    } else if syscall_id == SYSCALL_YIELD {
        crate::syscall::process::yielded(before, after, r)
    } else if syscall_id == SYSCALL_GET_TIME {
        (r matches SyscallOutcome::Done(ms) && ms == (ticks / 12_500) as isize) && after == before
    } else if syscall_id == SYSCALL_GETPID {
        crate::syscall::process::pid_given(before, r) && after == before
    } else if syscall_id == SYSCALL_FORK {
        crate::syscall::process::fork_called(before, after, r)
    } else if syscall_id == SYSCALL_EXEC {
        crate::syscall::process::exec_called(before, after, args[0], r)
    } else if syscall_id == SYSCALL_WAITPID {
        crate::syscall::process::waitpid_called(before, after, args[0] as isize, args[1], r)
    } else {
        crate::syscall::process::ended(before, after, r, -1i32)
    }
}

/// Does the system call with the number `syscall_id` and the arguments `args` for the
/// running task. `ticks` is the value of the cycle counter.
pub fn syscall(kernel: &mut Kernel, syscall_id: usize, args: [u64; 3], ticks: u64) -> (r:
    SyscallOutcome)
    requires
        old(kernel).wf(),
    ensures
        final(kernel).wf(),
        final(kernel).env == old(kernel).env,
        final(kernel).apps == old(kernel).apps,
        served(*old(kernel), *final(kernel), syscall_id, args, ticks, r),
        r is Done || r is Console ==> final(kernel).processor == old(kernel).processor,
        r is Suspended || r is Exited ==> final(kernel).processor.running() is None,
{
    if syscall_id == SYSCALL_READ {
        sys_read(kernel, args[0] as usize, args[1], args[2] as usize)
    } else if syscall_id == SYSCALL_WRITE {
        sys_write(kernel, args[0] as usize, args[1], args[2] as usize)
    } else if syscall_id == SYSCALL_EXIT {
        sys_exit(kernel, args[0] as i32)
    } else if syscall_id == SYSCALL_YIELD {
        sys_yield(kernel)
    } else if syscall_id == SYSCALL_GET_TIME {
        sys_get_time(ticks)
    } else if syscall_id == SYSCALL_GETPID {
        sys_getpid(kernel)
    } else if syscall_id == SYSCALL_FORK {
        sys_fork(kernel)
    } else if syscall_id == SYSCALL_EXEC {
        sys_exec(kernel, args[0])
    } else if syscall_id == SYSCALL_WAITPID {
        sys_waitpid(kernel, args[0] as isize, args[1])
    } else {
        sys_exit(kernel, -1)
    }
}

/// Whether the kernel has a system call with this number.
pub open spec fn supported(syscall_id: usize) -> bool {
    syscall_id == 63 || syscall_id == 64 || syscall_id == 93 || syscall_id == 124 || syscall_id
        == 169 || syscall_id == 172 || syscall_id == 220 || syscall_id == 221 || syscall_id == 260
}

} // verus!
